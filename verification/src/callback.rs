use vstd::prelude::*;
use core::marker::PhantomData;

verus! {

/// A wrapper trait for calling callbacks.
pub trait Callable<In, Out> {
    /// What the stored function asks of its argument.
    spec fn callable_requires(&self, input: In) -> bool;

    /// What holds of a value the stored function may return.
    spec fn callable_ensures(&self, input: In, output: Out) -> bool;

    /// calls the callback with the specified argument.
    fn call(&self, input: In) -> (output: Out)
        requires
            self.callable_requires(input),
        ensures
            self.callable_ensures(input, output),
    ;
}

/// Callbacks define a standard way to store functions and closures, for
/// instance as optional component properties.
#[verifier::reject_recursive_types(In)]
#[verifier::reject_recursive_types(Out)]
pub struct Callback<In, Out, F> where F: Fn(In) -> Out {
    f: F,
    input_output: PhantomData<(In, Out)>,
}

impl<In, Out, F> Callback<In, Out, F> where F: Fn(In) -> Out {
    /// The stored function.
    pub closed spec fn func(&self) -> F {
        self.f
    }

    /// Creates a new callback from the given function.
    pub fn new(f: F) -> (r: Callback<In, Out, F>)
        ensures
            r.func() == f,
    {
        Callback { f, input_output: PhantomData }
    }
}

impl<In, Out, F> Callable<In, Out> for Callback<In, Out, F> where F: Fn(In) -> Out {
    open spec fn callable_requires(&self, input: In) -> bool {
        call_requires(self.func(), (input,))
    }

    open spec fn callable_ensures(&self, input: In, output: Out) -> bool {
        call_ensures(self.func(), (input,), output)
    }

    fn call(&self, input: In) -> (output: Out) {
        (self.f)(input)
    }
}

impl<In, Out, F> Clone for Callback<In, Out, F> where F: Fn(In) -> Out + Clone {
    fn clone(&self) -> (r: Self) {
        Callback { f: self.f.clone(), input_output: PhantomData }
    }
}

impl<In, Out, F> From<F> for Callback<In, Out, F> where F: Fn(In) -> Out {
    fn from(f: F) -> (r: Callback<In, Out, F>) {
        Callback::new(f)
    }
}

impl<In, Out, F> vstd::std_specs::convert::FromSpecImpl<F> for Callback<In, Out, F> where F: Fn(In) -> Out {
    closed spec fn obeys_from_spec() -> bool {
        true
    }

    closed spec fn from_spec(f: F) -> Self {
        Callback { f, input_output: PhantomData }
    }
}

/// A callback type that is `Send` and `Sync` if its stored function is;
/// otherwise used exactly like `Callback`.
#[verifier::reject_recursive_types(In)]
#[verifier::reject_recursive_types(Out)]
pub struct SyncCallback<In, Out, F> where F: Fn(In) -> Out + Send + Sync {
    f: F,
    input_output: PhantomData<(In, Out)>,
}

impl<In, Out, F> SyncCallback<In, Out, F> where F: Fn(In) -> Out + Send + Sync {
    /// The stored function.
    pub closed spec fn func(&self) -> F {
        self.f
    }

    /// Creates a new callback from the given function.
    pub fn new(fun: F) -> (r: SyncCallback<In, Out, F>)
        ensures
            r.func() == fun,
    {
        SyncCallback { f: fun, input_output: PhantomData }
    }
}

impl<In, Out, F> Callable<In, Out> for SyncCallback<In, Out, F> where F: Fn(In) -> Out + Send + Sync {
    open spec fn callable_requires(&self, input: In) -> bool {
        call_requires(self.func(), (input,))
    }

    open spec fn callable_ensures(&self, input: In, output: Out) -> bool {
        call_ensures(self.func(), (input,), output)
    }

    fn call(&self, input: In) -> (output: Out) {
        (self.f)(input)
    }
}

impl<In, Out, F> Clone for SyncCallback<In, Out, F> where F: Fn(In) -> Out + Send + Sync + Clone {
    fn clone(&self) -> (r: Self) {
        SyncCallback { f: self.f.clone(), input_output: PhantomData }
    }
}

impl<In, Out, F> From<F> for SyncCallback<In, Out, F> where F: Fn(In) -> Out + Send + Sync {
    fn from(f: F) -> (r: SyncCallback<In, Out, F>) {
        SyncCallback::new(f)
    }
}

impl<In, Out, F> vstd::std_specs::convert::FromSpecImpl<F> for SyncCallback<In, Out, F> where F: Fn(In) -> Out + Send + Sync {
    closed spec fn obeys_from_spec() -> bool {
        true
    }

    closed spec fn from_spec(f: F) -> Self {
        SyncCallback { f, input_output: PhantomData }
    }
}

/// The asynchronous flavour: the stored function hands back a future, which
/// the caller drives; `Fu` is that future's type.
#[verifier::reject_recursive_types(In)]
#[verifier::reject_recursive_types(Fu)]
pub struct AsyncCallback<In, Fu, F> where F: Fn(In) -> Fu {
    f: F,
    input_output: PhantomData<(In, Fu)>,
}

impl<In, Fu, F> AsyncCallback<In, Fu, F> where F: Fn(In) -> Fu {
    /// The stored function.
    pub closed spec fn func(&self) -> F {
        self.f
    }

    /// Creates a new callback from the given function.
    pub fn new(f: F) -> (r: AsyncCallback<In, Fu, F>)
        ensures
            r.func() == f,
    {
        AsyncCallback { f, input_output: PhantomData }
    }

    /// calls the callback with the specified argument, handing back the
    /// future it produces.
    pub fn call(&self, input: In) -> (fut: Fu)
        requires
            call_requires(self.func(), (input,)),
        ensures
            call_ensures(self.func(), (input,), fut),
    {
        (self.f)(input)
    }
}

impl<In, Fu, F> Clone for AsyncCallback<In, Fu, F> where F: Fn(In) -> Fu + Clone {
    fn clone(&self) -> (r: Self) {
        AsyncCallback { f: self.f.clone(), input_output: PhantomData }
    }
}

impl<In, Fu, F> From<F> for AsyncCallback<In, Fu, F> where F: Fn(In) -> Fu {
    fn from(f: F) -> (r: AsyncCallback<In, Fu, F>) {
        AsyncCallback::new(f)
    }
}

impl<In, Fu, F> vstd::std_specs::convert::FromSpecImpl<F> for AsyncCallback<In, Fu, F> where F: Fn(In) -> Fu {
    closed spec fn obeys_from_spec() -> bool {
        true
    }

    closed spec fn from_spec(f: F) -> Self {
        AsyncCallback { f, input_output: PhantomData }
    }
}

} // verus!
