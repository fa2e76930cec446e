//! The dynamically typed value tree that a parse produces, and its rendering
//! back to text.

use vstd::prelude::*;
use crate::number::has_dot;
use crate::number::has_exp;
use crate::number::is_number_text;
use crate::number::push_int;
use crate::number::spec_int_text;
use crate::strutil::chars_to_string;
use crate::strutil::str_to_chars;

verus! {

broadcast use vstd::std_specs::vec::axiom_vec_index_decreases;

/// A JSON number.  A literal without a decimal point or exponent becomes an
/// exact signed 64-bit integer; any literal with `.`, `e` or `E` keeps its raw
/// text, which downstream consumers may convert to a binary floating-point
/// value of their choosing.
#[derive(Debug, Clone, PartialEq)]
pub enum JsonNumber {
    Int(i64),
    Float(String),
}

/// A parsed JSON datum.  `Unknown` stands for a value slot that has not been
/// determined yet; it is an internal placeholder and never appears in a value
/// returned to a caller.
#[derive(Debug, PartialEq)]
pub enum JsonValue {
    Unknown,
    Null,
    Bool(bool),
    Number(JsonNumber),
    String(String),
    Array(Vec<JsonValue>),
    Object(Vec<(String, JsonValue)>),
}

/// Well-formedness of an object's member list: every value is well formed and
/// keys are pairwise distinct (a later write for the same key replaces the
/// earlier one during parsing).
pub open spec fn entries_wf(es: Seq<(String, JsonValue)>) -> bool {
    &&& forall|i: int| 0 <= i < es.len() ==> wf_value(#[trigger] es[i].1)
    &&& forall|i: int, j: int| 0 <= i < j < es.len() ==> es[i].0@ != es[j].0@
}

/// Well-formedness of a number: a `Float` must hold valid JSON number text
/// with a decimal point or an exponent — the texts the parser classifies as
/// floats.
pub open spec fn wf_number(n: JsonNumber) -> bool {
    match n {
        JsonNumber::Int(_) => true,
        JsonNumber::Float(s) => is_number_text(s@) && (has_dot(s@) || has_exp(s@)),
    }
}

/// Well-formedness of a value tree: no `Unknown` anywhere, every `Float`
/// holds valid number text, and every object's keys are distinct.
pub open spec fn wf_value(v: JsonValue) -> bool
    decreases v,
{
    match v {
        JsonValue::Unknown => false,
        JsonValue::Null => true,
        JsonValue::Bool(_) => true,
        JsonValue::Number(n) => wf_number(n),
        JsonValue::String(_) => true,
        JsonValue::Array(a) => forall|i: int| 0 <= i < a@.len() ==> wf_value(#[trigger] a@[i]),
        JsonValue::Object(es) => {
            &&& forall|i: int| 0 <= i < es@.len() ==> wf_value(#[trigger] es@[i].1)
            &&& forall|i: int, j: int| 0 <= i < j < es@.len() ==> es@[i].0@ != es@[j].0@
        },
    }
}

/// How one character of a string renders inside quotes: the quote, the
/// backslash and the short control escapes are escaped; everything else
/// stands for itself.
pub open spec fn spec_escape_char(c: char) -> Seq<char> {
    if c == '"' {
        seq!['\\', '"']
    } else if c == '\\' {
        seq!['\\', '\\']
    } else if c == '\n' {
        seq!['\\', 'n']
    } else if c == '\t' {
        seq!['\\', 't']
    } else if c == '\r' {
        seq!['\\', 'r']
    } else if c == '\u{0008}' {
        seq!['\\', 'b']
    } else if c == '\u{000C}' {
        seq!['\\', 'f']
    } else {
        seq![c]
    }
}

/// The rendering of the first `n` characters of a string's contents.
pub open spec fn spec_escape_upto(s: Seq<char>, n: int) -> Seq<char>
    decreases n,
{
    if n <= 0 {
        Seq::empty()
    } else {
        spec_escape_upto(s, n - 1) + spec_escape_char(s[n - 1])
    }
}

/// The rendering of a string's contents, without the surrounding quotes.
pub open spec fn spec_escape(s: Seq<char>) -> Seq<char> {
    spec_escape_upto(s, s.len() as int)
}

/// The text a number renders as.
pub open spec fn spec_render_number(n: JsonNumber) -> Seq<char> {
    match n {
        JsonNumber::Int(i) => spec_int_text(i as int),
        JsonNumber::Float(s) => s@,
    }
}

/// The text a value renders as: JSON notation, with `", "` between elements
/// and members and `": "` after keys.  The internal placeholder renders as a
/// diagnostic word.
pub open spec fn spec_render(v: JsonValue) -> Seq<char>
    decreases v, 2int,
{
    match v {
        JsonValue::Unknown => seq!['U', 'n', 'k', 'n', 'o', 'w', 'n'],
        JsonValue::Null => seq!['n', 'u', 'l', 'l'],
        JsonValue::Bool(b) => if b {
            seq!['t', 'r', 'u', 'e']
        } else {
            seq!['f', 'a', 'l', 's', 'e']
        },
        JsonValue::Number(n) => spec_render_number(n),
        JsonValue::String(s) => seq!['"'] + spec_escape(s@) + seq!['"'],
        JsonValue::Array(a) => seq!['['] + spec_render_items(a, a@.len() as int) + seq![']'],
        JsonValue::Object(es) => seq!['{'] + spec_render_entries(es, es@.len() as int) + seq!['}'],
    }
}

/// The rendering of the first `n` elements of an array.
pub open spec fn spec_render_items(a: Vec<JsonValue>, n: int) -> Seq<char>
    decreases a, n,
{
    if n <= 0 || n > a@.len() {
        Seq::empty()
    } else {
        spec_render_items(a, n - 1) + (if n == 1 {
            Seq::empty()
        } else {
            seq![',', ' ']
        }) + spec_render(a@[n - 1])
    }
}

/// The rendering of the first `n` members of an object.
pub open spec fn spec_render_entries(es: Vec<(String, JsonValue)>, n: int) -> Seq<char>
    decreases es, n,
{
    if n <= 0 || n > es@.len() {
        Seq::empty()
    } else {
        spec_render_entries(es, n - 1) + (if n == 1 {
            Seq::empty()
        } else {
            seq![',', ' ']
        }) + seq!['"'] + spec_escape(es@[n - 1].0@) + seq!['"', ':', ' '] + spec_render(
            es@[n - 1].1,
        )
    }
}

/// Appends the rendering of a string's contents, escaping as
/// [`spec_escape_char`] says.
fn push_escaped(s: &String, out: &mut Vec<char>)
    ensures
        final(out)@ == old(out)@ + spec_escape(s@),
{
    let cs = str_to_chars(s.as_str());
    let mut j: usize = 0;
    while j < cs.len()
        invariant
            cs@ == s@,
            j <= cs@.len(),
            out@ == old(out)@ + spec_escape_upto(s@, j as int),
        decreases cs@.len() - j,
    {
        let c = cs[j];
        if c == '"' {
            out.push('\\');
            out.push('"');
        } else if c == '\\' {
            out.push('\\');
            out.push('\\');
        } else if c == '\n' {
            out.push('\\');
            out.push('n');
        } else if c == '\t' {
            out.push('\\');
            out.push('t');
        } else if c == '\r' {
            out.push('\\');
            out.push('r');
        } else if c == '\u{0008}' {
            out.push('\\');
            out.push('b');
        } else if c == '\u{000C}' {
            out.push('\\');
            out.push('f');
        } else {
            out.push(c);
        }
        proof {
            assert(out@ =~= old(out)@ + spec_escape_upto(s@, j + 1));
        }
        j = j + 1;
    }
}

/// Appends the rendering of a value.
fn push_value(v: &JsonValue, out: &mut Vec<char>)
    ensures
        final(out)@ == old(out)@ + spec_render(*v),
    decreases v,
{
    match v {
        JsonValue::Unknown => {
            out.push('U');
            out.push('n');
            out.push('k');
            out.push('n');
            out.push('o');
            out.push('w');
            out.push('n');
            proof {
                assert(out@ =~= old(out)@ + spec_render(*v));
            }
        },
        JsonValue::Null => {
            out.push('n');
            out.push('u');
            out.push('l');
            out.push('l');
            proof {
                assert(out@ =~= old(out)@ + spec_render(*v));
            }
        },
        JsonValue::Bool(b) => {
            if *b {
                out.push('t');
                out.push('r');
                out.push('u');
                out.push('e');
            } else {
                out.push('f');
                out.push('a');
                out.push('l');
                out.push('s');
                out.push('e');
            }
            proof {
                assert(out@ =~= old(out)@ + spec_render(*v));
            }
        },
        JsonValue::Number(n) => {
            match n {
                JsonNumber::Int(i) => {
                    push_int(*i, out);
                },
                JsonNumber::Float(fs) => {
                    let cs = str_to_chars(fs.as_str());
                    let mut j: usize = 0;
                    while j < cs.len()
                        invariant
                            cs@ == fs@,
                            j <= cs@.len(),
                            out@ == old(out)@ + fs@.take(j as int),
                        decreases cs@.len() - j,
                    {
                        out.push(cs[j]);
                        proof {
                            assert(out@ =~= old(out)@ + fs@.take(j + 1));
                        }
                        j = j + 1;
                    }
                    proof {
                        assert(fs@.take(fs@.len() as int) =~= fs@);
                    }
                },
            }
        },
        JsonValue::String(st) => {
            out.push('"');
            push_escaped(st, out);
            out.push('"');
            proof {
                assert(out@ =~= old(out)@ + spec_render(*v));
            }
        },
        JsonValue::Array(a) => {
            out.push('[');
            let mut j: usize = 0;
            while j < a.len()
                invariant
                    j <= a@.len(),
                    *v == JsonValue::Array(*a),
                    out@ == old(out)@ + seq!['['] + spec_render_items(*a, j as int),
                decreases a@.len() - j,
            {
                if j > 0 {
                    out.push(',');
                    out.push(' ');
                }
                proof {
                    let av = (*v)->Array_0;
                    assert(decreases_to!(*v => (*v)->Array_0));
                    assert(decreases_to!(av => av@[j as int]));
                }
                push_value(&a[j], out);
                proof {
                    assert(out@ =~= old(out)@ + seq!['['] + spec_render_items(*a, j + 1));
                }
                j = j + 1;
            }
            out.push(']');
            proof {
                assert(out@ =~= old(out)@ + spec_render(*v));
            }
        },
        JsonValue::Object(es) => {
            out.push('{');
            let mut j: usize = 0;
            while j < es.len()
                invariant
                    j <= es@.len(),
                    *v == JsonValue::Object(*es),
                    out@ == old(out)@ + seq!['{'] + spec_render_entries(*es, j as int),
                decreases es@.len() - j,
            {
                if j > 0 {
                    out.push(',');
                    out.push(' ');
                }
                out.push('"');
                push_escaped(&es[j].0, out);
                out.push('"');
                out.push(':');
                out.push(' ');
                proof {
                    let ev = (*v)->Object_0;
                    assert(decreases_to!(*v => (*v)->Object_0));
                    assert(decreases_to!(ev => ev@[j as int]));
                    assert(decreases_to!(ev@[j as int] => ev@[j as int].1));
                }
                push_value(&es[j].1, out);
                proof {
                    assert(out@ =~= old(out)@ + seq!['{'] + spec_render_entries(*es, j + 1));
                }
                j = j + 1;
            }
            out.push('}');
            proof {
                assert(out@ =~= old(out)@ + spec_render(*v));
            }
        },
    }
}

/// Round-trip law for integer scalar values: the text rendered for an
/// integer value is valid integer literal text denoting the same integer, so
/// by [`crate::engine::parse_str`]'s contract, parsing the rendering yields
/// the value back.
pub proof fn lemma_int_value_round_trip(n: i64)
    ensures
        crate::number::is_int_text(spec_render(JsonValue::Number(JsonNumber::Int(n)))),
        crate::number::int_text_val(spec_render(JsonValue::Number(JsonNumber::Int(n)))) == n as int,
{
    crate::number::lemma_int_round_trip(n);
}

/// Round-trip law for float scalar values: a well-formed float renders as
/// exactly its stored text, which is valid number text with a decimal point
/// or exponent, so by [`crate::engine::parse_str`]'s contract parsing the
/// rendering yields the value back.
pub proof fn lemma_float_value_round_trip(fs: String)
    requires
        wf_number(JsonNumber::Float(fs)),
    ensures
        spec_render(JsonValue::Number(JsonNumber::Float(fs))) == fs@,
        is_number_text(fs@),
        has_dot(fs@) || has_exp(fs@),
{
}

impl JsonNumber {
    /// Renders this number as text: the decimal numeral of an integer, or the
    /// raw literal text of a float.
    pub fn to_text(&self) -> (r: String)
        ensures
            r@ == spec_render_number(*self),
    {
        match self {
            JsonNumber::Int(i) => {
                let mut out: Vec<char> = Vec::new();
                push_int(*i, &mut out);
                chars_to_string(&out)
            },
            JsonNumber::Float(s) => s.clone(),
        }
    }
}

impl JsonValue {
    /// Renders this value as JSON text, as [`spec_render`] says.
    pub fn to_text(&self) -> (r: String)
        ensures
            r@ == spec_render(*self),
    {
        let mut out: Vec<char> = Vec::new();
        push_value(self, &mut out);
        chars_to_string(&out)
    }
}

} // verus!
