use vstd::prelude::*;
use vstd::string::StringExecFns;

verus! {

/// The entry written for a property whose value serialized: a JSON object
/// with the property's name and its serialized value.
pub open spec fn name_value_entry(name: Seq<char>, value: Seq<char>) -> Seq<char> {
    "{\"name\": \""@ + name + "\", \"value\": "@ + value + "}"@
}

/// The entry written when serializing failed, carrying the error text.
pub open spec fn name_error_entry(name: Seq<char>, error: Seq<char>) -> Seq<char> {
    "{\"name\": \""@ + name + "\", \"error\": "@ + error + "}"@
}

/// The entry written for a value that offers no serializer at all.
pub open spec fn unserializable_entry(name: Seq<char>) -> Seq<char> {
    "{\"name\": \""@ + name
        + "\", \"error\": \"The trait `serde::Serialize` is not implemented\"}"@
}

pub fn render_value_entry(name: &str, value: &str) -> (r: String)
    ensures
        r@ == name_value_entry(name@, value@),
{
    let mut s = String::from_str("{\"name\": \"");
    s.append(name);
    s.append("\", \"value\": ");
    s.append(value);
    s.append("}");
    proof {
        assert(s@ =~= name_value_entry(name@, value@));
    }
    s
}

pub fn render_error_entry(name: &str, error: &str) -> (r: String)
    ensures
        r@ == name_error_entry(name@, error@),
{
    let mut s = String::from_str("{\"name\": \"");
    s.append(name);
    s.append("\", \"error\": ");
    s.append(error);
    s.append("}");
    proof {
        assert(s@ =~= name_error_entry(name@, error@));
    }
    s
}

pub fn render_unserializable_entry(name: &str) -> (r: String)
    ensures
        r@ == unserializable_entry(name@),
{
    let mut s = String::from_str("{\"name\": \"");
    s.append(name);
    s.append("\", \"error\": \"The trait `serde::Serialize` is not implemented\"}");
    proof {
        assert(s@ =~= unserializable_entry(name@));
    }
    s
}

/// The decimal digits of `n`, most significant first; this is also the
/// JSON text of an unsigned number.
pub open spec fn decimal_digits(n: nat) -> Seq<char>
    decreases n,
{
    if n < 10 {
        seq![digit_char(n)]
    } else {
        decimal_digits(n / 10).push(digit_char(n % 10))
    }
}

pub open spec fn digit_char(d: nat) -> char {
    if d == 0 {
        '0'
    } else if d == 1 {
        '1'
    } else if d == 2 {
        '2'
    } else if d == 3 {
        '3'
    } else if d == 4 {
        '4'
    } else if d == 5 {
        '5'
    } else if d == 6 {
        '6'
    } else if d == 7 {
        '7'
    } else if d == 8 {
        '8'
    } else {
        '9'
    }
}

fn digit_str(d: u64) -> (r: &'static str)
    requires
        d < 10,
    ensures
        r@ == seq![digit_char(d as nat)],
{
    proof {
        reveal_strlit("0");
        reveal_strlit("1");
        reveal_strlit("2");
        reveal_strlit("3");
        reveal_strlit("4");
        reveal_strlit("5");
        reveal_strlit("6");
        reveal_strlit("7");
        reveal_strlit("8");
        reveal_strlit("9");
    }
    if d == 0 {
        "0"
    } else if d == 1 {
        "1"
    } else if d == 2 {
        "2"
    } else if d == 3 {
        "3"
    } else if d == 4 {
        "4"
    } else if d == 5 {
        "5"
    } else if d == 6 {
        "6"
    } else if d == 7 {
        "7"
    } else if d == 8 {
        "8"
    } else {
        "9"
    }
}

/// Writes `n` in decimal, which is its JSON serialization.
pub fn u64_to_decimal(n: u64) -> (r: String)
    ensures
        r@ == decimal_digits(n as nat),
    decreases n,
{
    if n < 10 {
        String::from_str(digit_str(n))
    } else {
        let r = u64_to_decimal(n / 10);
        let s = r.concat(digit_str(n % 10));
        proof {
            assert(s@ =~= decimal_digits(n as nat));
        }
        s
    }
}

/// One property captured for tracing: its name and, until it is taken, its
/// value.
pub struct Match<T> {
    pub name: &'static str,
    pub value: Option<T>,
}

/// The favoured arm of the match: a value that offers a serializer.
pub trait SerializeMatch {
    type Return;

    /// When the entry may be rendered at all.
    spec fn spez_requires(&self) -> bool;

    fn spez(&self) -> Self::Return
        requires
            self.spez_requires(),
    ;
}

/// The fallback arm of the match, for a value with no serializer.
pub trait DefalutMatch {
    type Return;

    /// When the entry may be rendered at all.
    spec fn spez_requires(&self) -> bool;

    fn spez(&self) -> Self::Return
        requires
            self.spez_requires(),
    ;
}

impl SerializeMatch for &Match<&u64> {
    type Return = String;

    open spec fn spez_requires(&self) -> bool {
        self.value is Some
    }

    fn spez(&self) -> Self::Return {
        let v = *self.value.unwrap();
        let text = u64_to_decimal(v);
        render_value_entry(self.name, text.as_str())
    }
}

impl<T> DefalutMatch for Match<&T> {
    type Return = String;

    open spec fn spez_requires(&self) -> bool {
        true
    }

    fn spez(&self) -> Self::Return {
        render_unserializable_entry(self.name)
    }
}

/// The whole property list: the rendered entries joined with commas inside
/// square brackets; no entries at all gives the empty list text.
pub open spec fn props_list(entries: Seq<Seq<char>>) -> Seq<char> {
    if entries.len() == 0 {
        "[]"@
    } else {
        "["@ + comma_joined(entries) + "]"@
    }
}

pub open spec fn comma_joined(entries: Seq<Seq<char>>) -> Seq<char>
    decreases entries.len(),
{
    if entries.len() == 0 {
        Seq::empty()
    } else if entries.len() == 1 {
        entries[0]
    } else {
        comma_joined(entries.drop_last()) + ","@ + entries.last()
    }
}

/// Joins already rendered property entries into the list the tracing layer
/// logs.
pub fn tracing_props(entries: &Vec<String>) -> (r: String)
    ensures
        r@ == props_list(entries@.map_values(|s: String| s@)),
{
    let n = entries.len();
    if n == 0 {
        let r = String::from_str("[]");
        return r;
    }
    let mut s = String::from_str("[");
    for i in 0..n
        invariant
            n == entries@.len(),
            n > 0,
            s@ == "["@ + comma_joined(entries@.map_values(|t: String| t@).take(i as int)),
    {
        if i > 0 {
            s.append(",");
        }
        s.append(entries[i].as_str());
        proof {
            let views = entries@.map_values(|t: String| t@);
            assert(views.take(i + 1).drop_last() =~= views.take(i as int));
            assert(views.take(i + 1).last() == views[i as int]);
            if i == 0 {
                assert(s@ =~= "["@ + comma_joined(views.take(1)));
            } else {
                assert(s@ =~= "["@ + comma_joined(views.take(i + 1)));
            }
        }
    }
    s.append("]");
    proof {
        let views = entries@.map_values(|t: String| t@);
        assert(views.take(n as int) =~= views);
        assert(s@ =~= props_list(views));
    }
    s
}

} // verus!
