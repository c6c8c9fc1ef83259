use keyed_list::callback::{AsyncCallback, Callable, Callback, SyncCallback};

struct NoClone {}

#[test]
fn clone_callback() {
    let callback = Callback::new(move |_no_clone: NoClone| NoClone {});
    let _cloned = callback.clone();
}

#[test]
fn clone_sync_callback() {
    let callback = SyncCallback::new(move |_no_clone: NoClone| NoClone {});
    let _cloned = callback.clone();
}

#[test]
fn clone_async_callback() {
    let callback = AsyncCallback::new(move |_no_clone: NoClone| async { NoClone {} });
    let _cloned = callback.clone();
}

#[test]
fn callback_from() {
    let _callback: Callback<(), String, _> = (|()| "test".to_string()).into();
}

#[test]
fn sync_callback_from() {
    let _callback: SyncCallback<(), String, _> = (|()| "test".to_string()).into();
}

#[test]
fn async_callback_from() {
    let _callback: AsyncCallback<(), _, _> = (|()| async { "test".to_string() }).into();
}

#[test]
fn callback_call_runs_the_function() {
    let callback = Callback::new(|x: i32| x * 2);
    assert_eq!(callback.call(21), 42);
    assert_eq!(callback.call(21), 42);
}

#[test]
fn sync_callback_call_runs_the_function() {
    let callback = SyncCallback::new(|s: String| s.len());
    assert_eq!(callback.call("four".to_string()), 4);
}

#[test]
fn async_callback_returns_a_future() {
    let callback = AsyncCallback::new(|x: u32| async move { x + 1 });
    let fut = callback.call(41);
    assert_eq!(futures::executor::block_on(fut), 42);
}
