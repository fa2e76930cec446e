//! The parsing engine: a stack of open parsing contexts driven one character
//! at a time.
//!
//! The transition table, by top-of-stack context and character class:
//!
//! | Top context            | Character                | Action |
//! |------------------------|--------------------------|--------|
//! | root / array / field value slot | `{`             | push object, push empty field |
//! | root / array / field value slot | `[`             | push array |
//! | root / array / field value slot | `"`             | push string scanner |
//! | root / array / field value slot | digit, `-`      | push number scanner |
//! | root / array / field value slot | `t`, `f`, `n`   | push literal scanner |
//! | field, no key yet      | `"`                      | push string scanner (the key) |
//! | field, no key yet      | `}` (not after a comma)  | close the object |
//! | field, key set         | `:`                      | mark ready for the value |
//! | field, key and value   | `,`                      | fold member, push fresh field |
//! | field, key and value   | `}`                      | fold member, close the object |
//! | array, after a value   | `,`                      | await the next element |
//! | array, after a value or empty | `]`               | close the array |
//! | string scanner         | anything                 | accumulate, decode escapes |
//! | number scanner         | digit, `.`, `e`, `E`, sign | accumulate |
//! | number scanner         | any terminator           | finish the number, re-dispatch |
//! | literal scanner        | next expected character  | advance; on the last, yield |
//! | any but a scanner      | whitespace               | skip, no state change |
//!
//! Any other pair is an error at that character's position.

use vstd::prelude::*;
use crate::error::CtxKind;
use crate::error::ParseError;
use crate::error::ParseErrorKind;
use crate::error::spec_col_at;
use crate::error::spec_line_at;
use crate::number::is_digit_char;
use crate::number::is_exp_char;
use crate::number::digit_val;
use crate::number::has_dot;
use crate::number::has_exp;
use crate::number::int_text_val;
use crate::number::lemma_has_push;
use crate::number::is_int_text;
use crate::number::is_num_char;
use crate::number::is_number_text;
use crate::number::num_shape;
use crate::number::parse_int_text;
use crate::strutil::char_from_u32;
use crate::strutil::chars_to_string;
use crate::strutil::str_to_chars;
use crate::value::JsonNumber;
use crate::value::spec_render;
use crate::value::spec_escape;
use crate::value::spec_escape_char;
use crate::value::spec_escape_upto;
use crate::value::JsonValue;
use crate::value::entries_wf;
use crate::value::wf_value;

verus! {

/// Which bareword literal a literal scanner is matching.
#[derive(Debug, PartialEq, Clone, Copy)]
pub enum LitKind {
    True,
    False,
    Null,
}

/// What an array context awaits next.
#[derive(Debug, PartialEq, Clone, Copy)]
pub enum ArrExpect {
    /// Right after `[`: an element or `]`.
    First,
    /// Right after an element: `,` or `]`.
    Sep,
    /// Right after `,`: an element.
    Item,
}

/// The escape-decoding state of a string scanner.
#[derive(Debug, PartialEq, Clone, Copy)]
pub enum EscState {
    /// Ordinary characters.
    NotEscaping,
    /// A `\` has been read.
    AfterBackslash,
    /// Inside the four hex digits of `\u`; `got` digits seen, value so far in
    /// `acc`.
    Hex { got: u8, acc: u32 },
    /// A high surrogate was decoded; a `\` must follow.
    SurBackslash { hi: u32 },
    /// A high surrogate and `\` were seen; a `u` must follow.
    SurU { hi: u32 },
    /// Inside the four hex digits of the low half of a surrogate pair.
    SurHex { hi: u32, got: u8, acc: u32 },
}

/// One open nesting level of a parse.
#[derive(Debug, PartialEq)]
pub enum ParseCtx {
    /// The bottom of the stack; holds the finished root value once one has
    /// been produced.
    Root { value: Option<JsonValue> },
    /// An object whose `{` has been consumed but `}` has not.
    Obj { entries: Vec<(String, JsonValue)> },
    /// One member slot of an object: key, whether `:` was seen, the value,
    /// and whether a comma promised that this member must exist.
    Field { key: Option<String>, colon: bool, value: Option<JsonValue>, required: bool },
    /// An array whose `[` has been consumed but `]` has not.
    Arr { items: Vec<JsonValue>, expect: ArrExpect },
    /// A string literal being scanned.
    Text { text: Vec<char>, esc: EscState },
    /// A number literal being scanned as raw text.
    Num { text: Vec<char>, dot: bool, exp: bool, last_exp: bool },
    /// One of `true`, `false`, `null`, with how many characters matched.
    Lit { kind: LitKind, matched: u8 },
}

/// Well-formedness of an escape state: digit counters stay below four, the
/// accumulator holds at most `got` hex digits' worth, and a remembered high
/// half is in the high-surrogate range.
pub open spec fn esc_wf(e: EscState) -> bool {
    match e {
        EscState::Hex { got, acc } => got <= 3 && acc < 0x1000 && (got == 0 ==> acc == 0) && (got
            <= 1 ==> acc < 16) && (got <= 2 ==> acc < 256),
        EscState::SurBackslash { hi } => 0xD800 <= hi < 0xDC00,
        EscState::SurU { hi } => 0xD800 <= hi < 0xDC00,
        EscState::SurHex { hi, got, acc } => 0xD800 <= hi < 0xDC00 && got <= 3 && acc < 0x1000 && (
        got == 0 ==> acc == 0) && (got <= 1 ==> acc < 16) && (got <= 2 ==> acc < 256),
        _ => true,
    }
}

/// The scanned prefix of a number literal is consistent with its flags.
pub open spec fn num_prefix_wf(s: Seq<char>, dot: bool, exp: bool, last_exp: bool) -> bool {
    &&& num_shape(s)
    &&& (dot <==> has_dot(s))
    &&& (exp <==> has_exp(s))
    &&& (last_exp <==> is_exp_char(s[s.len() - 1]))
}

/// Well-formedness of one context.
pub open spec fn ctx_wf(ctx: ParseCtx) -> bool {
    match ctx {
        ParseCtx::Root { value } => value matches Some(v) ==> wf_value(v),
        ParseCtx::Obj { entries } => entries_wf(entries@),
        ParseCtx::Field { key, colon, value, required } => value matches Some(v) ==> wf_value(v),
        ParseCtx::Arr { items, expect } => forall|i: int|
            0 <= i < items@.len() ==> wf_value(#[trigger] items@[i]),
        ParseCtx::Text { text, esc } => esc_wf(esc),
        ParseCtx::Num { text, dot, exp, last_exp } => num_prefix_wf(text@, dot, exp, last_exp),
        ParseCtx::Lit { kind, matched } => matched <= 4,
    }
}

/// A context in which a fresh value may start: the root before its value, an
/// array, or an object member slot whose `:` has been consumed.
pub open spec fn value_slot(ctx: ParseCtx) -> bool {
    match ctx {
        ParseCtx::Root { value } => value is None,
        ParseCtx::Arr { items, expect } => true,
        ParseCtx::Field { key, colon, value, required } => key is Some && colon && value is None,
        _ => false,
    }
}

/// Which context may sit directly above which: a field slot only above its
/// object; a value context only above a slot that awaits a value; a string
/// scanner also above a field that awaits its key; nothing above a scanner
/// or a finished root.
pub open spec fn can_stack(below: ParseCtx, above: ParseCtx) -> bool {
    match above {
        ParseCtx::Root { .. } => false,
        ParseCtx::Field { .. } => below is Obj,
        ParseCtx::Text { .. } => value_slot(below) || below matches ParseCtx::Field {
            key: Option::None,
            colon: false,
            value: Option::None,
            ..
        },
        _ => value_slot(below),
    }
}

/// Well-formedness of the whole context stack.
pub open spec fn wf_stack(s: Seq<ParseCtx>) -> bool {
    &&& s.len() >= 1
    &&& s[0] is Root
    &&& forall|i: int| 0 <= i < s.len() ==> ctx_wf(#[trigger] s[i])
    &&& forall|i: int| 0 <= i < s.len() - 1 ==> can_stack(#[trigger] s[i], s[i + 1])
}

/// A completed value may fold into this context: a slot that awaits a value,
/// or a field awaiting its key when the value is a string.
pub open spec fn fold_ok(ctx: ParseCtx, v: JsonValue) -> bool {
    value_slot(ctx) || (v is String && ctx matches ParseCtx::Field {
        key: Option::None,
        colon: false,
        value: Option::None,
        ..
    })
}

/// The stack of a parse that has consumed exactly the text `t` of one
/// integer literal and nothing else: the untouched root below one number
/// scanner holding `t`.
pub open spec fn int_shape(st: Seq<ParseCtx>, t: Seq<char>) -> bool {
    &&& st.len() == 2
    &&& st[0] == (ParseCtx::Root { value: Option::<JsonValue>::None })
    &&& st[1] matches ParseCtx::Num { text, dot, exp, last_exp } && text@ == t && !dot && !exp
        && !last_exp
}

/// The stack of a parse that has consumed `{` and nothing else: the untouched
/// root, an empty object, and a fresh member slot.
pub open spec fn obj_open_trace(st: Seq<ParseCtx>) -> bool {
    &&& st.len() == 3
    &&& st[0] == (ParseCtx::Root { value: Option::<JsonValue>::None })
    &&& st[1] matches ParseCtx::Obj { entries } && entries@.len() == 0
    &&& st[2] == (ParseCtx::Field {
        key: Option::<String>::None,
        colon: false,
        value: Option::<JsonValue>::None,
        required: false,
    })
}

/// The stack after an empty object document: the root holding an object with
/// no members.
pub open spec fn obj_done_trace(st: Seq<ParseCtx>) -> bool {
    &&& st.len() == 1
    &&& st[0] matches ParseCtx::Root { value } && value matches Some(v) && v matches
        JsonValue::Object(es) && es@.len() == 0
}

/// The characters that may extend a number literal with this text: a digit
/// always; one decimal point, after a digit and before any exponent; one
/// exponent marker after a digit; a sign right after the exponent marker.
pub open spec fn num_accept(t: Seq<char>, c: char) -> bool {
    ||| is_digit_char(c)
    ||| (c == '.' && !has_dot(t) && !has_exp(t) && t.len() >= 1 && is_digit_char(t.last()))
    ||| (is_exp_char(c) && !has_exp(t) && t.len() >= 1 && is_digit_char(t.last()))
    ||| ((c == '+' || c == '-') && t.len() >= 1 && is_exp_char(t.last()))
}

/// The stack of a parse that has consumed exactly the text `t` of one number
/// literal and nothing else; the scanner's flags reflect the text.
pub open spec fn num_trace(st: Seq<ParseCtx>, t: Seq<char>) -> bool {
    &&& st.len() == 2
    &&& st[0] == (ParseCtx::Root { value: Option::<JsonValue>::None })
    &&& st[1] matches ParseCtx::Num { text, dot, exp, last_exp } && text@ == t && (dot <==> has_dot(
        t,
    )) && (exp <==> has_exp(t)) && (last_exp <==> (t.len() >= 1 && is_exp_char(t.last())))
}

/// In a document that is one valid number literal, each character after the
/// first may extend the scanned prefix before it.
proof fn lemma_number_doc_accept(s: Seq<char>, i: int)
    requires
        is_number_text(s),
        1 <= i < s.len(),
    ensures
        num_accept(s.take(i), s[i]),
{
    let t = s.take(i);
    assert(t.last() == s[i - 1]);
    assert(is_num_char(s[i]));
    if s[i] == '.' {
        if has_dot(t) {
            let k = choose|k: int| 0 <= k < t.len() && t[k] == '.';
            assert(s[k] == '.');
            assert(s[i] != '.');
        }
        if has_exp(t) {
            let k = choose|k: int| 0 <= k < t.len() && is_exp_char(#[trigger] t[k]);
            assert(is_exp_char(s[k]));
            assert(s[i] != '.');
        }
    } else if is_exp_char(s[i]) {
        if has_exp(t) {
            let k = choose|k: int| 0 <= k < t.len() && is_exp_char(#[trigger] t[k]);
            assert(is_exp_char(s[k]));
            assert(!is_exp_char(s[i]));
        }
    }
}

/// Facts about a number token of one digit: it contains no dot or exponent
/// and denotes its digit's value.
proof fn lemma_digit_singleton(c: char)
    requires
        is_digit_char(c),
    ensures
        !has_dot(seq![c]),
        !has_exp(seq![c]),
        int_text_val(seq![c]) == digit_val(c),
        is_digit_char(seq![c][0]),
{
    if has_dot(seq![c]) {
        let k = choose|k: int| 0 <= k < 1 && seq![c][k] == '.';
        assert(seq![c][k] == c);
    }
    if has_exp(seq![c]) {
        let k = choose|k: int| 0 <= k < 1 && is_exp_char(#[trigger] seq![c][k]);
        assert(seq![c][k] == c);
    }
    assert(seq![c].drop_last() =~= Seq::<char>::empty());
    assert(crate::number::digits_val(Seq::<char>::empty()) == 0);
    assert(crate::number::digits_val(seq![c]) == digit_val(c));
}

/// A stack scanning the key of an empty object's first member: the root, the
/// object, the fresh member slot, and a string scanner holding `t`.
pub open spec fn member_text_top(st: Seq<ParseCtx>, t: Seq<char>) -> bool {
    &&& st.len() == 4
    &&& st[0] == (ParseCtx::Root { value: Option::<JsonValue>::None })
    &&& st[1] matches ParseCtx::Obj { entries } && entries@.len() == 0
    &&& st[2] == (ParseCtx::Field {
        key: Option::<String>::None,
        colon: false,
        value: Option::<JsonValue>::None,
        required: false,
    })
    &&& st[3] matches ParseCtx::Text { text, esc } && text@ == t && esc == EscState::NotEscaping
}

/// A stack holding an empty object's first member slot with its key read and
/// no value yet; `colon` says whether the `:` has been consumed.
pub open spec fn member_key_top(st: Seq<ParseCtx>, k: Seq<char>, colon: bool) -> bool {
    &&& st.len() == 3
    &&& st[0] == (ParseCtx::Root { value: Option::<JsonValue>::None })
    &&& st[1] matches ParseCtx::Obj { entries } && entries@.len() == 0
    &&& st[2] matches ParseCtx::Field {
        key: Option::Some(k2),
        colon: c2,
        value: Option::None,
        required: r2,
    } && k2@ == k && c2 == colon && !r2
}

/// A stack scanning the number value of an empty object's first member.
pub open spec fn member_num_top(st: Seq<ParseCtx>, k: Seq<char>, t: Seq<char>) -> bool {
    &&& st.len() == 4
    &&& member_key_top(st.drop_last(), k, true)
    &&& st[3] matches ParseCtx::Num { text, dot, exp, last_exp } && text@ == t && !dot && !exp
        && !last_exp
}

/// The value of an integer element.
pub open spec fn int_val(n: i64) -> JsonValue {
    JsonValue::Number(JsonNumber::Int(n))
}

/// A stack holding only the untouched root and an array with the given
/// elements, awaiting what `expect` says.
pub open spec fn arr_top(st: Seq<ParseCtx>, items: Seq<JsonValue>, expect: ArrExpect) -> bool {
    &&& st.len() == 2
    &&& st[0] == (ParseCtx::Root { value: Option::<JsonValue>::None })
    &&& st[1] matches ParseCtx::Arr { items: v, expect: e } && v@ == items && e == expect
}

/// A stack holding the untouched root, an array with the given elements, and
/// a number scanner holding the digits `t` with no dot, exponent or pending
/// sign.
pub open spec fn arr_num_top(
    st: Seq<ParseCtx>,
    items: Seq<JsonValue>,
    expect: ArrExpect,
    t: Seq<char>,
) -> bool {
    &&& st.len() == 3
    &&& st[0] == (ParseCtx::Root { value: Option::<JsonValue>::None })
    &&& st[1] matches ParseCtx::Arr { items: v, expect: e } && v@ == items && e == expect
    &&& st[2] matches ParseCtx::Num { text, dot, exp, last_exp } && text@ == t && !dot && !exp
        && !last_exp
}

/// What a simple (single-character) escape decodes to, or `None` for an
/// escape that is not simple (`\u`, or invalid).
pub open spec fn esc_decode(c: char) -> Option<char> {
    if c == '"' {
        Some('"')
    } else if c == '\\' {
        Some('\\')
    } else if c == '/' {
        Some('/')
    } else if c == 'n' {
        Some('\n')
    } else if c == 't' {
        Some('\t')
    } else if c == 'r' {
        Some('\r')
    } else if c == 'b' {
        Some('\u{0008}')
    } else if c == 'f' {
        Some('\u{000C}')
    } else {
        None
    }
}

/// The scanner state after the string content `t`, for content made of
/// ordinary characters and simple escapes: the decoded characters and whether
/// a backslash is pending.  `None` when `t` leaves this fragment: an
/// unescaped closing quote, a `\u` escape, or an invalid escape.
pub open spec fn str_scan(t: Seq<char>) -> Option<(Seq<char>, bool)>
    decreases t.len(),
{
    if t.len() == 0 {
        Some((Seq::empty(), false))
    } else {
        match str_scan(t.drop_last()) {
            Option::None => None,
            Option::Some(st) => {
                let c = t.last();
                if st.1 {
                    match esc_decode(c) {
                        Option::Some(x) => Some((st.0.push(x), false)),
                        Option::None => None,
                    }
                } else if c == '"' {
                    None
                } else if c == '\\' {
                    Some((st.0, true))
                } else {
                    Some((st.0.push(c), false))
                }
            },
        }
    }
}

/// Every prefix of content the scanner accepts is accepted too.
pub proof fn lemma_str_scan_prefix(t: Seq<char>, k: int)
    requires
        str_scan(t) is Some,
        0 <= k <= t.len(),
    ensures
        str_scan(t.take(k)) is Some,
    decreases t.len() - k,
{
    if k < t.len() {
        lemma_str_scan_prefix(t, k + 1);
        assert(t.take(k + 1).drop_last() =~= t.take(k));
    } else {
        assert(t.take(k) =~= t);
    }
}

/// The stack of a parse that has consumed the opening quote and the string
/// content `t` of a string document in the simple-escape fragment.
/// A stack holding only the untouched root and a string scanner with the
/// given decoded characters and pending-backslash state.
pub open spec fn str_top(st: Seq<ParseCtx>, decoded: Seq<char>, pending: bool) -> bool {
    &&& st.len() == 2
    &&& st[0] == (ParseCtx::Root { value: Option::<JsonValue>::None })
    &&& st[1] matches ParseCtx::Text { text, esc } && text@ == decoded && esc == (if pending {
        EscState::AfterBackslash
    } else {
        EscState::NotEscaping
    })
}

/// A stack holding only the root, finished with a string of the given
/// characters.
pub open spec fn str_done(st: Seq<ParseCtx>, decoded: Seq<char>) -> bool {
    &&& st.len() == 1
    &&& st[0] matches ParseCtx::Root { value } && value matches Some(v) && v matches
        JsonValue::String(ds) && ds@ == decoded
}

pub open spec fn str_trace(st: Seq<ParseCtx>, t: Seq<char>) -> bool {
    str_scan(t) matches Some(sc) && str_top(st, sc.0, sc.1)
}

/// A document that is one string literal whose content stays in the
/// simple-escape fragment and does not end inside an escape.
pub open spec fn is_simple_string_doc(s: Seq<char>) -> bool {
    &&& s.len() >= 2
    &&& s[0] == '"'
    &&& s[s.len() - 1] == '"'
    &&& str_scan(s.subrange(1, s.len() - 1)) matches Some(sc) && !sc.1
}

/// Scanning the rendering of the first `n` characters of a string's contents
/// decodes exactly those characters, with no escape left pending.
proof fn lemma_escape_scan(s: Seq<char>, n: int)
    requires
        0 <= n <= s.len(),
    ensures
        str_scan(spec_escape_upto(s, n)) matches Some(sc) && sc.0 == s.take(n) && !sc.1,
    decreases n,
{
    if n == 0 {
        assert(spec_escape_upto(s, 0) =~= Seq::<char>::empty());
        assert(s.take(0) =~= Seq::<char>::empty());
    } else {
        lemma_escape_scan(s, n - 1);
        let c = s[n - 1];
        let u = spec_escape_upto(s, n - 1);
        assert(s.take(n) =~= s.take(n - 1).push(c));
        if c == '"' || c == '\\' || c == '\n' || c == '\t' || c == '\r' || c == '\u{0008}'
            || c == '\u{000C}' {
            let code = spec_escape_char(c)[1];
            assert(esc_decode(code) == Some(c));
            assert(spec_escape_upto(s, n) =~= u.push('\\').push(code));
            assert(u.push('\\').push(code).drop_last() =~= u.push('\\'));
            assert(u.push('\\').drop_last() =~= u);
            assert(u.push('\\').last() == '\\');
            assert(str_scan(u.push('\\')) matches Some(m) && m.0 == s.take(n - 1) && m.1);
            assert(u.push('\\').push(code).last() == code);
            assert(str_scan(spec_escape_upto(s, n)) matches Some(sc) && sc.0 == s.take(
                n - 1,
            ).push(c) && !sc.1);
        } else {
            assert(spec_escape_char(c) =~= seq![c]);
            assert(spec_escape_upto(s, n) =~= u.push(c));
            assert(u.push(c).drop_last() =~= u);
            assert(u.push(c).last() == c);
            assert(c != '"' && c != '\\');
            assert(str_scan(spec_escape_upto(s, n)) matches Some(sc) && sc.0 == s.take(
                n - 1,
            ).push(c) && !sc.1);
        }
    }
}

/// Round-trip law for string scalar values: the text rendered for a string of
/// any characters is a string document in the simple-escape fragment whose
/// scan decodes back to exactly those characters, so by [`parse_str`]'s
/// contract parsing the rendering yields the string back.
pub proof fn lemma_string_round_trip(s: Seq<char>)
    ensures
        is_simple_string_doc(seq!['"'] + spec_escape(s) + seq!['"']),
        str_scan((seq!['"'] + spec_escape(s) + seq!['"']).subrange(
            1,
            (seq!['"'] + spec_escape(s) + seq!['"']).len() - 1,
        )) matches Some(sc) && sc.0 == s && !sc.1,
{
    lemma_escape_scan(s, s.len() as int);
    assert(s.take(s.len() as int) =~= s);
    let doc = seq!['"'] + spec_escape(s) + seq!['"'];
    assert(doc.subrange(1, doc.len() - 1) =~= spec_escape(s));
    assert(doc[0] == '"');
    assert(doc[doc.len() - 1] == '"');
}

/// Round-trip law for string scalar values, stated over a value's rendering:
/// the rendered text of any string value is a simple-escape string document
/// that scans back to exactly the value's characters, so by [`parse_str`]'s
/// contract parsing the rendering yields the value back.
pub proof fn lemma_string_value_round_trip(st: String)
    ensures
        is_simple_string_doc(spec_render(JsonValue::String(st))),
        str_scan(spec_render(JsonValue::String(st)).subrange(
            1,
            spec_render(JsonValue::String(st)).len() - 1,
        )) matches Some(sc) && sc.0 == st@ && !sc.1,
{
    lemma_string_round_trip(st@);
    assert(spec_render(JsonValue::String(st)) == seq!['"'] + spec_escape(st@) + seq!['"']);
}

/// Pushing a context that may sit on the old top keeps the stack well formed.
proof fn lemma_stack_push(s: Seq<ParseCtx>, x: ParseCtx)
    requires
        wf_stack(s),
        ctx_wf(x),
        can_stack(s.last(), x),
    ensures
        wf_stack(s.push(x)),
{
    let t = s.push(x);
    assert(t[0] == s[0]);
    assert forall|i: int| 0 <= i < t.len() implies ctx_wf(#[trigger] t[i]) by {
        if i < s.len() {
            assert(ctx_wf(s[i]));
        }
    }
    assert forall|i: int| 0 <= i < t.len() - 1 implies can_stack(#[trigger] t[i], t[i + 1]) by {
        if i < s.len() - 1 {
            assert(can_stack(s[i], s[i + 1]));
        } else {
            assert(t[i] == s.last());
        }
    }
}

/// Removing the top of a stack of two or more keeps it well formed.
proof fn lemma_stack_pop(s: Seq<ParseCtx>)
    requires
        wf_stack(s),
        s.len() >= 2,
    ensures
        wf_stack(s.drop_last()),
{
    let t = s.drop_last();
    assert forall|i: int| 0 <= i < t.len() implies ctx_wf(#[trigger] t[i]) by {
        assert(ctx_wf(s[i]));
    }
    assert forall|i: int| 0 <= i < t.len() - 1 implies can_stack(#[trigger] t[i], t[i + 1]) by {
        assert(can_stack(s[i], s[i + 1]));
    }
}

/// JSON's insignificant whitespace.
pub open spec fn is_ws_char(c: char) -> bool {
    c == ' ' || c == '\t' || c == '\n' || c == '\r'
}

/// Whether this character is JSON whitespace.
pub fn is_ws(c: char) -> (r: bool)
    ensures
        r == is_ws_char(c),
{
    c == ' ' || c == '\t' || c == '\n' || c == '\r'
}

/// Whether this character is a decimal digit.
pub fn is_digit(c: char) -> (r: bool)
    ensures
        r == is_digit_char(c),
{
    let u = c as u32;
    48 <= u && u <= 57
}

/// The value of a hexadecimal digit.
pub open spec fn hex_digit_val(c: char) -> int {
    if is_digit_char(c) {
        c as u32 - 48
    } else if 97 <= c as u32 && c as u32 <= 102 {
        c as u32 - 87
    } else {
        c as u32 - 55
    }
}

/// A hexadecimal digit, upper or lower case.
pub open spec fn is_hex_char(c: char) -> bool {
    is_digit_char(c) || (97 <= c as u32 && c as u32 <= 102) || (65 <= c as u32 && c as u32 <= 70)
}

/// The value of a hexadecimal digit character, or `None`.
fn hex_val(c: char) -> (r: Option<u32>)
    ensures
        r is Some <==> is_hex_char(c),
        r matches Some(d) ==> d == hex_digit_val(c) && d < 16,
{
    let u = c as u32;
    if 48 <= u && u <= 57 {
        Some(u - 48)
    } else if 97 <= u && u <= 102 {
        Some(u - 87)
    } else if 65 <= u && u <= 70 {
        Some(u - 55)
    } else {
        None
    }
}

/// How many characters a bareword literal has, as a specification value.
pub open spec fn lit_len_spec(kind: LitKind) -> int {
    match kind {
        LitKind::True => 4,
        LitKind::False => 5,
        LitKind::Null => 4,
    }
}

/// The characters of a bareword literal.
pub open spec fn lit_text(kind: LitKind) -> Seq<char> {
    match kind {
        LitKind::True => seq!['t', 'r', 'u', 'e'],
        LitKind::False => seq!['f', 'a', 'l', 's', 'e'],
        LitKind::Null => seq!['n', 'u', 'l', 'l'],
    }
}

/// The value a bareword literal denotes, as a specification value.
pub open spec fn lit_value_spec(kind: LitKind) -> JsonValue {
    match kind {
        LitKind::True => JsonValue::Bool(true),
        LitKind::False => JsonValue::Bool(false),
        LitKind::Null => JsonValue::Null,
    }
}

/// The literal a starting character opens.
pub open spec fn lit_kind_of(c: char) -> LitKind {
    if c == 't' {
        LitKind::True
    } else if c == 'f' {
        LitKind::False
    } else {
        LitKind::Null
    }
}

/// The stack of a parse that has consumed the first `i` characters of a
/// document that is one bareword literal: the untouched root, then a literal
/// scanner while the word is incomplete, then the finished root value.
pub open spec fn lit_trace(st: Seq<ParseCtx>, i: int, kind: LitKind) -> bool {
    if i <= 0 {
        st == seq![ParseCtx::Root { value: Option::<JsonValue>::None }]
    } else if i < lit_len_spec(kind) {
        st == seq![
            ParseCtx::Root { value: Option::<JsonValue>::None },
            ParseCtx::Lit { kind, matched: i as u8 },
        ]
    } else {
        st == seq![ParseCtx::Root { value: Some(lit_value_spec(kind)) }]
    }
}

/// The expected character of a bareword literal at a given position.
fn lit_char(kind: LitKind, matched: u8) -> (r: Option<char>)
    ensures
        r is Some <==> matched < lit_len_spec(kind),
        r matches Some(ch) ==> ch == lit_text(kind)[matched as int],
{
    match kind {
        LitKind::True => {
            if matched == 0 {
                Some('t')
            } else if matched == 1 {
                Some('r')
            } else if matched == 2 {
                Some('u')
            } else if matched == 3 {
                Some('e')
            } else {
                None
            }
        },
        LitKind::False => {
            if matched == 0 {
                Some('f')
            } else if matched == 1 {
                Some('a')
            } else if matched == 2 {
                Some('l')
            } else if matched == 3 {
                Some('s')
            } else if matched == 4 {
                Some('e')
            } else {
                None
            }
        },
        LitKind::Null => {
            if matched == 0 {
                Some('n')
            } else if matched == 1 {
                Some('u')
            } else if matched == 2 {
                Some('l')
            } else if matched == 3 {
                Some('l')
            } else {
                None
            }
        },
    }
}

/// How many characters a bareword literal has.
fn lit_len(kind: LitKind) -> (r: u8)
    ensures
        r == lit_len_spec(kind),
{
    match kind {
        LitKind::True => 4,
        LitKind::False => 5,
        LitKind::Null => 4,
    }
}

/// The value a bareword literal denotes.
fn lit_value(kind: LitKind) -> (r: JsonValue)
    ensures
        wf_value(r),
        !(r is String),
        r == lit_value_spec(kind),
{
    match kind {
        LitKind::True => JsonValue::Bool(true),
        LitKind::False => JsonValue::Bool(false),
        LitKind::Null => JsonValue::Null,
    }
}

/// Records a member in an object's accumulator.  A later write for a key that
/// is already present replaces the earlier value and nothing else changes;
/// a fresh key is appended.
fn insert_entry(entries: &mut Vec<(String, JsonValue)>, k: String, v: JsonValue)
    requires
        entries_wf(old(entries)@),
        wf_value(v),
    ensures
        entries_wf(final(entries)@),
        (forall|i: int| 0 <= i < old(entries)@.len() ==> (#[trigger] old(entries)@[i].0@) != k@)
            ==> final(entries)@ == old(entries)@.push((k, v)),
        (exists|i: int| 0 <= i < old(entries)@.len() && (#[trigger] old(entries)@[i].0@) == k@)
            ==> exists|i: int|
            0 <= i < old(entries)@.len() && (#[trigger] old(entries)@[i].0@) == k@
                && final(entries)@ == old(entries)@.update(i, (k, v)),
{
    let mut i: usize = 0;
    while i < entries.len()
        invariant
            i <= entries@.len(),
            entries@ == old(entries)@,
            entries_wf(entries@),
            wf_value(v),
            forall|j: int| 0 <= j < i ==> (#[trigger] entries@[j].0@) != k@,
        decreases entries@.len() - i,
    {
        if entries[i].0 == k {
            let ghost idx = i as int;
            entries.set(i, (k, v));
            proof {
                assert forall|a: int, b: int|
                    0 <= a < b < entries@.len() implies entries@[a].0@ != entries@[b].0@ by {
                    assert(old(entries)@[a].0@ != old(entries)@[b].0@);
                    assert(old(entries)@[idx].0@ == k@);
                }
                assert forall|a: int| 0 <= a < entries@.len() implies wf_value(
                    #[trigger] entries@[a].1,
                ) by {
                    if a != idx {
                        assert(wf_value(old(entries)@[a].1));
                    }
                }
            }
            return ;
        }
        i = i + 1;
    }
    entries.push((k, v));
    proof {
        assert forall|a: int, b: int|
            0 <= a < b < entries@.len() implies entries@[a].0@ != entries@[b].0@ by {
            if b < entries@.len() - 1 {
                assert(old(entries)@[a].0@ != old(entries)@[b].0@);
            } else {
                assert(entries@[a].0@ != k@);
            }
        }
        assert forall|a: int| 0 <= a < entries@.len() implies wf_value(#[trigger] entries@[a].1) by {
            if a < entries@.len() - 1 {
                assert(wf_value(old(entries)@[a].1));
            }
        }
    }
}

/// Folds a completed value into the slot beneath it: the root's result, the
/// next array element, a field's key (for a string) or a field's value.
fn fold_value(stack: &mut Vec<ParseCtx>, v: JsonValue)
    requires
        wf_stack(old(stack)@),
        wf_value(v),
        fold_ok(old(stack)@.last(), v),
    ensures
        wf_stack(final(stack)@),
        final(stack)@.len() == old(stack)@.len(),
        (old(stack)@.len() == 1 && old(stack)@[0] == (ParseCtx::Root {
            value: Option::<JsonValue>::None,
        })) ==> final(stack)@ == seq![ParseCtx::Root { value: Some(v) }],
        old(stack)@.last() matches ParseCtx::Arr { items, expect } ==> (final(stack)@.drop_last()
            == old(stack)@.drop_last() && (final(stack)@.last() matches ParseCtx::Arr {
            items: ni,
            expect: e2,
        } && ni@ == items@.push(v) && e2 is Sep)),
        old(stack)@.last() matches ParseCtx::Field {
            key: Option::None,
            colon: false,
            value: Option::None,
            required,
        } ==> (v matches JsonValue::String(sv) ==> (final(stack)@.drop_last()
            == old(stack)@.drop_last() && (final(stack)@.last() matches ParseCtx::Field {
            key: Option::Some(k2),
            colon: false,
            value: Option::None,
            required: r2,
        } && k2@ == sv@ && r2 == required))),
        old(stack)@.last() matches ParseCtx::Field {
            key: Option::Some(k),
            colon: true,
            value: Option::None,
            required,
        } ==> (final(stack)@.drop_last() == old(stack)@.drop_last()
            && (final(stack)@.last() matches ParseCtx::Field {
            key: Option::Some(k2),
            colon: true,
            value: Option::Some(v2),
            required: r2,
        } && k2@ == k@ && v2 == v && r2 == required)),
{
    proof {
        assert(ctx_wf(old(stack)@[old(stack)@.len() - 1]));
        if old(stack)@.len() >= 2 {
            assert(can_stack(old(stack)@[old(stack)@.len() - 2], old(stack)@[old(stack)@.len() - 1]));
        }
    }
    let ctx = match stack.pop() {
        Some(x) => x,
        None => {
            proof {
                assert(false);
            }
            return ;
        },
    };
    match ctx {
        ParseCtx::Root { value: Option::None } => {
            proof {
                if old(stack)@.len() >= 2 {
                    assert(!can_stack(old(stack)@[old(stack)@.len() - 2], old(stack)@.last()));
                }
            }
            stack.push(ParseCtx::Root { value: Some(v) });
            proof {
                assert(stack@ =~= seq![ParseCtx::Root { value: Some(v) }]);
            }
        },
        ParseCtx::Arr { items, expect } => {
            let mut items = items;
            items.push(v);
            proof {
                lemma_stack_pop(old(stack)@);
            }
            let top = ParseCtx::Arr { items, expect: ArrExpect::Sep };
            proof {
                assert(can_stack(old(stack)@[old(stack)@.len() - 2], old(stack)@.last()));
                assert(can_stack(stack@.last(), top));
            }
            stack.push(top);
            proof {
                lemma_stack_push(old(stack)@.drop_last(), ParseCtx::Arr { items, expect: ArrExpect::Sep });
            }
        },
        ParseCtx::Field { key: Option::None, colon: false, value: Option::None, required } => {
            match v {
                JsonValue::String(s) => {
                    proof {
                        lemma_stack_pop(old(stack)@);
                    }
                    let top = ParseCtx::Field {
                        key: Some(s),
                        colon: false,
                        value: None,
                        required,
                    };
                    proof {
                        assert(can_stack(old(stack)@[old(stack)@.len() - 2], old(stack)@.last()));
                        assert(can_stack(stack@.last(), top));
                    }
                    stack.push(top);
                    proof {
                        lemma_stack_push(old(stack)@.drop_last(), top);
                    }
                },
                _ => {
                    proof {
                        assert(false);
                    }
                },
            }
        },
        ParseCtx::Field { key: Option::Some(k), colon: true, value: Option::None, required } => {
            proof {
                lemma_stack_pop(old(stack)@);
            }
            let top = ParseCtx::Field { key: Some(k), colon: true, value: Some(v), required };
            proof {
                assert(can_stack(old(stack)@[old(stack)@.len() - 2], old(stack)@.last()));
                assert(can_stack(stack@.last(), top));
            }
            stack.push(top);
            proof {
                lemma_stack_push(old(stack)@.drop_last(), top);
            }
        },
        _ => {
            proof {
                assert(false);
            }
        },
    }
}

/// Opens the context a value-starting character calls for, on top of a slot
/// that awaits a value.
fn start_value(stack: &mut Vec<ParseCtx>, c: char, off: usize, line: usize, column: usize) -> (r:
    Result<(), ParseError>)
    requires
        wf_stack(old(stack)@),
        value_slot(old(stack)@.last()),
    ensures
        r is Ok ==> wf_stack(final(stack)@),
        r matches Err(e) ==> e.offset == off && e.line == line && e.column == column && (e.kind
            matches ParseErrorKind::UnexpectedCharacter(f) && f == c),
        is_digit_char(c) || c == '-' ==> (r is Ok && final(stack)@.drop_last() == old(stack)@
            && (final(stack)@.last() matches ParseCtx::Num { text, dot, exp, last_exp } && text@
            == seq![c] && !dot && !exp && !last_exp)),
        (c == 't' || c == 'f' || c == 'n') ==> (r is Ok && final(stack)@ == old(stack)@.push(
            ParseCtx::Lit { kind: lit_kind_of(c), matched: 1 },
        )),
        c == '[' ==> (r is Ok && final(stack)@.drop_last() == old(stack)@
            && (final(stack)@.last() matches ParseCtx::Arr { items, expect } && items@.len() == 0
            && expect is First)),
        (c == ']' || c == ',' || c == '}' || c == ':') ==> r is Err,
        c == '"' ==> (r is Ok && final(stack)@.drop_last() == old(stack)@
            && (final(stack)@.last() matches ParseCtx::Text { text, esc } && text@
            == Seq::<char>::empty() && esc == EscState::NotEscaping)),
        c == '{' ==> (r is Ok && final(stack)@.len() == old(stack)@.len() + 2
            && final(stack)@.take(old(stack)@.len() as int) == old(stack)@
            && (final(stack)@[old(stack)@.len() as int] matches ParseCtx::Obj { entries }
            && entries@.len() == 0) && final(stack)@.last() == (ParseCtx::Field {
            key: Option::None,
            colon: false,
            value: Option::None,
            required: false,
        })),
{
    if c == '{' {
        let obj = ParseCtx::Obj { entries: Vec::new() };
        proof {
            lemma_stack_push(old(stack)@, obj);
        }
        stack.push(obj);
        let field = ParseCtx::Field { key: None, colon: false, value: None, required: false };
        proof {
            lemma_stack_push(old(stack)@.push(obj), field);
        }
        stack.push(field);
        proof {
            assert(stack@.take(old(stack)@.len() as int) =~= old(stack)@);
        }
        Ok(())
    } else if c == '[' {
        let arr = ParseCtx::Arr { items: Vec::new(), expect: ArrExpect::First };
        proof {
            lemma_stack_push(old(stack)@, arr);
        }
        stack.push(arr);
        proof {
            assert(stack@.drop_last() =~= old(stack)@);
        }
        Ok(())
    } else if c == '"' {
        let t = ParseCtx::Text { text: Vec::new(), esc: EscState::NotEscaping };
        proof {
            lemma_stack_push(old(stack)@, t);
        }
        stack.push(t);
        proof {
            assert(stack@.drop_last() =~= old(stack)@);
        }
        Ok(())
    } else if is_digit(c) || c == '-' {
        let mut text: Vec<char> = Vec::new();
        text.push(c);
        proof {
            assert(text@ =~= seq![c]);
        }
        let n = ParseCtx::Num { text, dot: false, exp: false, last_exp: false };
        proof {
            lemma_stack_push(old(stack)@, n);
        }
        stack.push(n);
        proof {
            assert(stack@.drop_last() =~= old(stack)@);
        }
        Ok(())
    } else if c == 't' {
        let l = ParseCtx::Lit { kind: LitKind::True, matched: 1 };
        proof {
            lemma_stack_push(old(stack)@, l);
        }
        stack.push(l);
        Ok(())
    } else if c == 'f' {
        let l = ParseCtx::Lit { kind: LitKind::False, matched: 1 };
        proof {
            lemma_stack_push(old(stack)@, l);
        }
        stack.push(l);
        Ok(())
    } else if c == 'n' {
        let l = ParseCtx::Lit { kind: LitKind::Null, matched: 1 };
        proof {
            lemma_stack_push(old(stack)@, l);
        }
        stack.push(l);
        Ok(())
    } else {
        Err(ParseError {
            kind: ParseErrorKind::UnexpectedCharacter(c),
            offset: off,
            line,
            column,
        })
    }
}

/// Finishes a number literal whose context has just been popped: converts its
/// text and folds the value into the slot now on top.
fn finish_number(
    stack: &mut Vec<ParseCtx>,
    text: Vec<char>,
    dot: bool,
    exp: bool,
    off: usize,
    line: usize,
    column: usize,
) -> (r: Result<(), ParseError>)
    requires
        wf_stack(old(stack)@),
        value_slot(old(stack)@.last()),
        num_shape(text@),
        is_digit_char(text@[text@.len() - 1]),
        dot <==> has_dot(text@),
        exp <==> has_exp(text@),
    ensures
        r is Ok ==> wf_stack(final(stack)@) && final(stack)@.len() == old(stack)@.len(),
        r matches Err(e) ==> e.offset == off && e.line == line && e.column == column && e.kind
            is NumberOverflow,
        (old(stack)@.len() == 1 && old(stack)@[0] == (ParseCtx::Root {
            value: Option::<JsonValue>::None,
        }) && !dot && !exp) ==> {
            &&& (i64::MIN <= int_text_val(text@) <= i64::MAX ==> r is Ok && final(stack)@
                == seq![
                ParseCtx::Root {
                    value: Some(
                        JsonValue::Number(JsonNumber::Int(int_text_val(text@) as i64)),
                    ),
                },
            ])
            &&& (!(i64::MIN <= int_text_val(text@) <= i64::MAX) ==> r is Err)
        },
        old(stack)@.last() matches ParseCtx::Arr { items, expect } ==> ((!dot && !exp && i64::MIN
            <= int_text_val(text@) <= i64::MAX) ==> (r is Ok
            && final(stack)@.drop_last() == old(stack)@.drop_last()
            && (final(stack)@.last() matches ParseCtx::Arr { items: ni, expect: e2 }
            && ni@ == items@.push(JsonValue::Number(JsonNumber::Int(int_text_val(text@) as i64)))
            && e2 is Sep))),
        old(stack)@.last() matches ParseCtx::Field {
            key: Option::Some(k),
            colon: true,
            value: Option::None,
            required,
        } ==> ((!dot && !exp && i64::MIN <= int_text_val(text@) <= i64::MAX) ==> (r is Ok
            && final(stack)@.drop_last() == old(stack)@.drop_last()
            && (final(stack)@.last() matches ParseCtx::Field {
            key: Option::Some(k2),
            colon: true,
            value: Option::Some(v2),
            required: r2,
        } && k2@ == k@ && v2 == JsonValue::Number(JsonNumber::Int(int_text_val(text@) as i64))
            && r2 == required))),
        (old(stack)@.len() == 1 && old(stack)@[0] == (ParseCtx::Root {
            value: Option::<JsonValue>::None,
        }) && (dot || exp)) ==> (r is Ok && final(stack)@.len() == 1
            && (final(stack)@[0] matches ParseCtx::Root { value } && value matches Some(v)
            && v matches JsonValue::Number(n) && n matches JsonNumber::Float(fs) && fs@
            == text@)),
{
    if dot || exp {
        let s = chars_to_string(&text);
        let v = JsonValue::Number(JsonNumber::Float(s));
        proof {
            assert(is_number_text(text@));
        }
        fold_value(stack, v);
        Ok(())
    } else {
        proof {
            assert forall|i: int| 1 <= i < text@.len() implies is_digit_char(#[trigger] text@[i]) by {
                assert(is_num_char(text@[i]));
                assert(text@[i] != '.') by {
                    if text@[i] == '.' {
                        assert(has_dot(text@));
                    }
                }
                assert(!is_exp_char(text@[i])) by {
                    if is_exp_char(text@[i]) {
                        assert(has_exp(text@));
                    }
                }
                if text@[i] == '-' {
                    assert(is_exp_char(text@[i - 1]));
                    assert(has_exp(text@));
                }
                if text@[i] == '+' {
                    assert(is_exp_char(text@[i - 1]));
                    assert(has_exp(text@));
                }
            }
            assert(is_int_text(text@));
        }
        match parse_int_text(&text) {
            Some(n) => {
                fold_value(stack, JsonValue::Number(JsonNumber::Int(n)));
                Ok(())
            },
            None => Err(ParseError {
                kind: ParseErrorKind::NumberOverflow,
                offset: off,
                line,
                column,
            }),
        }
    }
}

/// Feeds one character to the machine.  `Ok(true)` means the character was
/// consumed; `Ok(false)` means a number literal was finished first and the
/// character must be dispatched again; an error aborts the parse.
///
/// Whitespace outside a scanner is skipped with no state change, which is
/// what makes runs of insignificant whitespace between tokens irrelevant to
/// the result.
#[verifier::rlimit(100)]
#[verifier::spinoff_prover]
pub fn step(stack: &mut Vec<ParseCtx>, c: char, off: usize, line: usize, column: usize) -> (r:
    Result<bool, ParseError>)
    requires
        wf_stack(old(stack)@),
    ensures
        r matches Ok(true) ==> wf_stack(final(stack)@),
        r matches Ok(false) ==> wf_stack(final(stack)@) && final(stack)@.len() < old(
            stack,
        )@.len(),
        r matches Err(e) ==> e.offset == off && e.line == line && e.column == column,
        r matches Err(e) ==> !(e.kind is UnterminatedStructure),
        r matches Err(e) ==> (e.kind matches ParseErrorKind::UnexpectedCharacter(f) ==> f == c),
        r matches Err(e) ==> (e.kind matches ParseErrorKind::InvalidEscape(f) ==> f == c),
        r matches Err(e) ==> (e.kind matches ParseErrorKind::TrailingContent(f) ==> f == c),
        is_ws_char(c) && !(old(stack)@.last() is Text) && !(old(stack)@.last() is Num) && !(old(
            stack,
        )@.last() is Lit) ==> (r matches Ok(true) && final(stack)@ == old(stack)@),
        (old(stack)@ == seq![ParseCtx::Root { value: Option::<JsonValue>::None }] && (
        is_digit_char(c) || c == '-')) ==> (r matches Ok(true) && int_shape(
            final(stack)@,
            seq![c],
        )),
        (old(stack)@.len() == 2 && old(stack)@[0] == (ParseCtx::Root {
            value: Option::<JsonValue>::None,
        }) && is_digit_char(c)) ==> (old(stack)@[1] matches ParseCtx::Num {
            text: t,
            dot: false,
            exp: false,
            last_exp: false,
        } ==> (r matches Ok(true) && int_shape(final(stack)@, t@.push(c)))),
        (old(stack)@.len() == 2 && old(stack)@[0] == (ParseCtx::Root {
            value: Option::<JsonValue>::None,
        })) ==> (old(stack)@[1] matches ParseCtx::Num { text, dot, exp, last_exp } ==> (((dot
            <==> has_dot(text@)) && (exp <==> has_exp(text@)) && (last_exp <==> (text@.len() >= 1
            && is_exp_char(text@.last()))) && num_accept(text@, c)) ==> (r matches Ok(true)
            && num_trace(final(stack)@, text@.push(c))))),
        (old(stack)@ == seq![ParseCtx::Root { value: Option::<JsonValue>::None }] && (c == 't'
            || c == 'f' || c == 'n')) ==> (r matches Ok(true) && lit_trace(
            final(stack)@,
            1,
            lit_kind_of(c),
        )),
        (old(stack)@ == seq![ParseCtx::Root { value: Option::<JsonValue>::None }] && c == '{')
            ==> (r matches Ok(true) && obj_open_trace(final(stack)@)),
        (old(stack)@ == seq![ParseCtx::Root { value: Option::<JsonValue>::None }] && c == '"')
            ==> (r matches Ok(true) && str_top(final(stack)@, Seq::<char>::empty(), false)),
        (old(stack)@ == seq![ParseCtx::Root { value: Option::<JsonValue>::None }] && c == '[')
            ==> (r matches Ok(true) && arr_top(final(stack)@, Seq::empty(), ArrExpect::First)),
        old(stack)@.last() matches ParseCtx::Arr { items, expect } ==> {
            &&& (c == ',' && expect is Sep ==> (r matches Ok(true) && final(stack)@.drop_last()
                == old(stack)@.drop_last() && (final(stack)@.last() matches ParseCtx::Arr {
                items: ni,
                expect: e2,
            } && ni@ == items@ && e2 is Item)))
            &&& (c == ']' && expect is Item ==> (r matches Err(e2) && e2.kind matches
                ParseErrorKind::UnexpectedCharacter(f) && f == c && e2.offset == off))
            &&& (c == ']' && !(expect is Item) && old(stack)@.drop_last() == seq![
                ParseCtx::Root { value: Option::<JsonValue>::None },
            ] ==> (r matches Ok(true) && final(stack)@.len() == 1 && (final(stack)@[0] matches
                ParseCtx::Root { value } && value matches Some(v) && v matches JsonValue::Array(
                ai,
            ) && ai@ == items@)))
            &&& ((is_digit_char(c) || c == '-') && !(expect is Sep) ==> (r matches Ok(true)
                && final(stack)@.drop_last() == old(stack)@ && (final(stack)@.last() matches
                ParseCtx::Num { text: t2, dot: d2, exp: e3, last_exp: l2 } && t2@ == seq![c]
                && !d2 && !e3 && !l2)))
        },
        old(stack)@.last() matches ParseCtx::Text { text: xt, esc: xe } ==> {
            &&& ((xe == EscState::NotEscaping && c != '"' && c != '\\') ==> (r matches Ok(true)
                && final(stack)@.drop_last() == old(stack)@.drop_last()
                && (final(stack)@.last() matches ParseCtx::Text { text: t2, esc: e2 } && t2@
                == xt@.push(c) && e2 == EscState::NotEscaping)))
            &&& (old(stack)@.drop_last().last() matches ParseCtx::Field {
                key: Option::None,
                colon: false,
                value: Option::None,
                required,
            } ==> ((xe == EscState::NotEscaping && c == '"') ==> (r matches Ok(true)
                && final(stack)@.drop_last() == old(stack)@.drop_last().drop_last()
                && (final(stack)@.last() matches ParseCtx::Field {
                key: Option::Some(k2),
                colon: false,
                value: Option::None,
                required: r2,
            } && k2@ == xt@ && r2 == required))))
        },
        old(stack)@.last() matches ParseCtx::Field {
            key: Option::None,
            colon: false,
            value: Option::None,
            required,
        } ==> (c == '"' ==> (r matches Ok(true) && final(stack)@.drop_last() == old(stack)@
            && (final(stack)@.last() matches ParseCtx::Text { text: t2, esc: e2 } && t2@
            == Seq::<char>::empty() && e2 == EscState::NotEscaping))),
        old(stack)@.last() matches ParseCtx::Field {
            key: Option::Some(k),
            colon: false,
            value: Option::None,
            required,
        } ==> (c == ':' ==> (r matches Ok(true) && final(stack)@.drop_last() == old(
            stack,
        )@.drop_last() && (final(stack)@.last() matches ParseCtx::Field {
            key: Option::Some(k2),
            colon: true,
            value: Option::None,
            required: r2,
        } && k2@ == k@ && r2 == required))),
        old(stack)@.last() matches ParseCtx::Field {
            key: Option::Some(k),
            colon: true,
            value: Option::None,
            required,
        } ==> ((is_digit_char(c) || c == '-') ==> (r matches Ok(true) && final(stack)@.drop_last()
            == old(stack)@ && (final(stack)@.last() matches ParseCtx::Num {
            text: t2,
            dot: d2,
            exp: e3,
            last_exp: l2,
        } && t2@ == seq![c] && !d2 && !e3 && !l2))),
        old(stack)@.last() matches ParseCtx::Num { text: t, dot, exp, last_exp } ==> {
            &&& (num_accept(t@, c) ==> (r matches Ok(true)
                && final(stack)@.drop_last() == old(stack)@.drop_last()
                && (final(stack)@.last() matches ParseCtx::Num { text: t2, .. } && t2@
                == t@.push(c))))
            &&& (old(stack)@.drop_last().last() matches ParseCtx::Arr { items, expect } ==> ((
            is_digit_char(t@[t@.len() - 1]) && !num_accept(t@, c) && !has_dot(t@) && !has_exp(t@)
                && i64::MIN <= int_text_val(t@) <= i64::MAX) ==> (r matches Ok(false)
                && final(stack)@.drop_last() == old(stack)@.drop_last().drop_last()
                && (final(stack)@.last()
                matches ParseCtx::Arr { items: ni, expect: e2 } && ni@ == items@.push(
                JsonValue::Number(JsonNumber::Int(int_text_val(t@) as i64)),
            ) && e2 is Sep))))
        },
        (obj_open_trace(old(stack)@) && c == '}') ==> (r matches Ok(true) && obj_done_trace(
            final(stack)@,
        )),
        (old(stack)@.len() == 2 && old(stack)@[0] == (ParseCtx::Root {
            value: Option::<JsonValue>::None,
        })) ==> (old(stack)@[1] matches ParseCtx::Text { text, esc } ==> {
            &&& (esc == EscState::NotEscaping && c == '"' ==> (r matches Ok(true) && str_done(
                final(stack)@,
                text@,
            )))
            &&& (esc == EscState::NotEscaping && c == '\\' ==> (r matches Ok(true) && str_top(
                final(stack)@,
                text@,
                true,
            )))
            &&& (esc == EscState::NotEscaping && c != '"' && c != '\\' ==> (r matches Ok(true)
                && str_top(final(stack)@, text@.push(c), false)))
            &&& (esc == EscState::AfterBackslash ==> (esc_decode(c) matches Some(x) ==> (
            r matches Ok(true) && str_top(final(stack)@, text@.push(x), false))))
        }),
        (old(stack)@.len() == 2 && old(stack)@[0] == (ParseCtx::Root {
            value: Option::<JsonValue>::None,
        })) ==> (old(stack)@[1] matches ParseCtx::Lit { kind, matched } ==> ((matched
            < lit_len_spec(kind) && c == lit_text(kind)[matched as int]) ==> (r matches Ok(true)
            && lit_trace(final(stack)@, matched + 1, kind)))),
{
    let n = stack.len();
    proof {
        assert(ctx_wf(old(stack)@[n - 1]));
        if n >= 2 {
            assert(can_stack(old(stack)@[n as int - 2], old(stack)@[n - 1]));
        }
    }
    let scanner = match &stack[n - 1] {
        ParseCtx::Text { .. } => true,
        ParseCtx::Num { .. } => true,
        ParseCtx::Lit { .. } => true,
        _ => false,
    };
    if is_ws(c) && !scanner {
        return Ok(true);
    }
    let ctx = match stack.pop() {
        Some(x) => x,
        None => {
            proof {
                assert(false);
            }
            return Err(ParseError {
                kind: ParseErrorKind::UnexpectedCharacter(c),
                offset: off,
                line,
                column,
            });
        },
    };
    match ctx {
        ParseCtx::Root { value: Option::None } => {
            let top = ParseCtx::Root { value: None };
            stack.push(top);
            proof {
                assert(stack@ =~= old(stack)@);
            }
            match start_value(stack, c, off, line, column) {
                Ok(()) => {
                    proof {
                        if c == '[' {
                            let top = stack@.last();
                            match top {
                                ParseCtx::Arr { items, expect } => {
                                    assert(items@ =~= Seq::<JsonValue>::empty());
                                    assert(stack@[0] == stack@.drop_last()[0]);
                                },
                                _ => {},
                            }
                        }
                        if c == 't' || c == 'f' || c == 'n' {
                            assert(stack@ =~= seq![
                                ParseCtx::Root { value: Option::<JsonValue>::None },
                                ParseCtx::Lit { kind: lit_kind_of(c), matched: 1u8 },
                            ]);
                        }
                    }
                    Ok(true)
                },
                Err(e) => Err(e),
            }
        },
        ParseCtx::Root { value: Option::Some(v) } => Err(ParseError {
            kind: ParseErrorKind::TrailingContent(c),
            offset: off,
            line,
            column,
        }),
        ParseCtx::Obj { entries } => Err(ParseError {
            kind: ParseErrorKind::UnexpectedCharacter(c),
            offset: off,
            line,
            column,
        }),
        ParseCtx::Field { key: Option::None, colon: false, value: Option::None, required } => {
            if c == '"' {
                let fld = ParseCtx::Field {
                    key: None,
                    colon: false,
                    value: None,
                    required,
                };
                stack.push(fld);
                proof {
                    assert(stack@ =~= old(stack)@);
                }
                let t = ParseCtx::Text { text: Vec::new(), esc: EscState::NotEscaping };
                proof {
                    lemma_stack_push(stack@, t);
                }
                stack.push(t);
                Ok(true)
            } else if c == '}' && !required {
                // An empty object, or `{}` at the start of a fresh field.
                proof {
                    lemma_stack_pop(old(stack)@);
                }
                match stack.pop() {
                    Some(ParseCtx::Obj { entries }) => {
                        proof {
                            lemma_stack_pop(old(stack)@.drop_last());
                            if obj_open_trace(old(stack)@) {
                                assert(stack@ =~= seq![ParseCtx::Root {
                                    value: Option::<JsonValue>::None,
                                }]);
                            }
                        }
                        fold_value(stack, JsonValue::Object(entries));
                        Ok(true)
                    },
                    _ => {
                        proof {
                            assert(false);
                        }
                        Err(ParseError {
                            kind: ParseErrorKind::UnexpectedCharacter(c),
                            offset: off,
                            line,
                            column,
                        })
                    },
                }
            } else {
                Err(ParseError {
                    kind: ParseErrorKind::UnexpectedCharacter(c),
                    offset: off,
                    line,
                    column,
                })
            }
        },
        ParseCtx::Field { key: Option::Some(k), colon: false, value: Option::None, required } => {
            if c == ':' {
                let top = ParseCtx::Field {
                    key: Some(k),
                    colon: true,
                    value: None,
                    required,
                };
                proof {
                    lemma_stack_pop(old(stack)@);
                    assert(can_stack(old(stack)@[old(stack)@.len() - 2], old(stack)@.last()));
                    lemma_stack_push(old(stack)@.drop_last(), top);
                }
                stack.push(top);
                Ok(true)
            } else {
                Err(ParseError {
                    kind: ParseErrorKind::UnexpectedCharacter(c),
                    offset: off,
                    line,
                    column,
                })
            }
        },
        ParseCtx::Field { key: Option::Some(k), colon: true, value: Option::None, required } => {
            let top = ParseCtx::Field {
                key: Some(k),
                colon: true,
                value: None,
                required,
            };
            stack.push(top);
            proof {
                assert(stack@ =~= old(stack)@);
            }
            match start_value(stack, c, off, line, column) {
                Ok(()) => Ok(true),
                Err(e) => Err(e),
            }
        },
        ParseCtx::Field {
            key: Option::Some(k),
            colon: true,
            value: Option::Some(v),
            required,
        } => {
            if c == ',' || c == '}' {
                proof {
                    lemma_stack_pop(old(stack)@);
                    assert(can_stack(old(stack)@[old(stack)@.len() - 2], old(stack)@.last()));
                }
                match stack.pop() {
                    Some(ParseCtx::Obj { entries }) => {
                        let mut entries = entries;
                        proof {
                            lemma_stack_pop(old(stack)@.drop_last());
                            assert(ctx_wf(old(stack)@[old(stack)@.len() - 2]));
                            assert(wf_value(v));
                        }
                        insert_entry(&mut entries, k, v);
                        if c == ',' {
                            let obj = ParseCtx::Obj { entries };
                            proof {
                                assert(can_stack(
                                    old(stack)@[old(stack)@.len() - 3],
                                    old(stack)@[old(stack)@.len() - 2],
                                ));
                                lemma_stack_push(old(stack)@.drop_last().drop_last(), obj);
                            }
                            stack.push(obj);
                            let fld = ParseCtx::Field {
                                key: None,
                                colon: false,
                                value: None,
                                required: true,
                            };
                            proof {
                                lemma_stack_push(
                                    old(stack)@.drop_last().drop_last().push(obj),
                                    fld,
                                );
                            }
                            stack.push(fld);
                            Ok(true)
                        } else {
                            proof {
                                assert(can_stack(
                                    old(stack)@[old(stack)@.len() - 3],
                                    old(stack)@[old(stack)@.len() - 2],
                                ));
                            }
                            fold_value(stack, JsonValue::Object(entries));
                            Ok(true)
                        }
                    },
                    _ => {
                        proof {
                            assert(false);
                        }
                        Err(ParseError {
                            kind: ParseErrorKind::UnexpectedCharacter(c),
                            offset: off,
                            line,
                            column,
                        })
                    },
                }
            } else {
                Err(ParseError {
                    kind: ParseErrorKind::UnexpectedCharacter(c),
                    offset: off,
                    line,
                    column,
                })
            }
        },
        ParseCtx::Field { key, colon, value, required } => {
            // No transition leads to the remaining field shapes.
            Err(ParseError {
                kind: ParseErrorKind::UnexpectedCharacter(c),
                offset: off,
                line,
                column,
            })
        },
        ParseCtx::Arr { items, expect } => {
            if c == ']' && !(matches!(expect, ArrExpect::Item)) {
                proof {
                    lemma_stack_pop(old(stack)@);
                    assert(can_stack(old(stack)@[old(stack)@.len() - 2], old(stack)@.last()));
                }
                fold_value(stack, JsonValue::Array(items));
                Ok(true)
            } else if c == ',' && matches!(expect, ArrExpect::Sep) {
                let top = ParseCtx::Arr { items, expect: ArrExpect::Item };
                proof {
                    lemma_stack_pop(old(stack)@);
                    assert(can_stack(old(stack)@[old(stack)@.len() - 2], old(stack)@.last()));
                    lemma_stack_push(old(stack)@.drop_last(), top);
                }
                stack.push(top);
                Ok(true)
            } else if matches!(expect, ArrExpect::Sep) {
                Err(ParseError {
                    kind: ParseErrorKind::UnexpectedCharacter(c),
                    offset: off,
                    line,
                    column,
                })
            } else {
                let top = ParseCtx::Arr { items, expect };
                stack.push(top);
                proof {
                    assert(stack@ =~= old(stack)@);
                }
                match start_value(stack, c, off, line, column) {
                    Ok(()) => Ok(true),
                    Err(e) => Err(e),
                }
            }
        },
        ParseCtx::Text { text, esc } => {
            proof {
                lemma_stack_pop(old(stack)@);
                assert(can_stack(old(stack)@[old(stack)@.len() - 2], old(stack)@.last()));
                if old(stack)@.len() == 2 && old(stack)@[0] == (ParseCtx::Root {
                    value: Option::<JsonValue>::None,
                }) {
                    assert(stack@ =~= seq![ParseCtx::Root { value: Option::<JsonValue>::None }]);
                }
            }
            match step_text(stack, text, esc, c, off, line, column) {
                Ok(_) => Ok(true),
                Err(e) => Err(e),
            }
        },
        ParseCtx::Num { text, dot, exp, last_exp } => {
            proof {
                lemma_stack_pop(old(stack)@);
                assert(can_stack(old(stack)@[old(stack)@.len() - 2], old(stack)@.last()));
                if old(stack)@.len() == 2 && old(stack)@[0] == (ParseCtx::Root {
                    value: Option::<JsonValue>::None,
                }) {
                    assert(stack@ =~= seq![ParseCtx::Root { value: Option::<JsonValue>::None }]);
                }
            }
            step_num(stack, text, dot, exp, last_exp, c, off, line, column)
        },
        ParseCtx::Lit { kind, matched } => {
            proof {
                lemma_stack_pop(old(stack)@);
                assert(can_stack(old(stack)@[old(stack)@.len() - 2], old(stack)@.last()));
                if old(stack)@.len() == 2 && old(stack)@[0] == (ParseCtx::Root {
                    value: Option::<JsonValue>::None,
                }) {
                    assert(stack@ =~= seq![ParseCtx::Root { value: Option::<JsonValue>::None }]);
                }
            }
            step_lit(stack, kind, matched, c, off, line, column)
        },
    }
}

/// One character fed to a number scanner that has just been popped off the
/// stack: an acceptable character extends the literal, a terminator after a
/// complete literal finishes it (`Ok(false)`: the character is not consumed),
/// anything else is an error.
#[verifier::rlimit(100)]
fn step_num(
    stack: &mut Vec<ParseCtx>,
    text: Vec<char>,
    dot: bool,
    exp: bool,
    last_exp: bool,
    c: char,
    off: usize,
    line: usize,
    column: usize,
) -> (r: Result<bool, ParseError>)
    requires
        wf_stack(old(stack)@),
        value_slot(old(stack)@.last()),
        num_prefix_wf(text@, dot, exp, last_exp),
    ensures
        r matches Ok(true) ==> wf_stack(final(stack)@),
        r matches Ok(false) ==> wf_stack(final(stack)@) && final(stack)@.len() == old(
            stack,
        )@.len(),
        r matches Err(e) ==> e.offset == off && e.line == line && e.column == column,
        r matches Err(e) ==> !(e.kind is UnterminatedStructure) && !(e.kind is TrailingContent)
            && !(e.kind is InvalidEscape),
        r matches Err(e) ==> (e.kind matches ParseErrorKind::UnexpectedCharacter(f) ==> f == c),
        (old(stack)@ == seq![ParseCtx::Root { value: Option::<JsonValue>::None }] && !dot && !exp
            && !last_exp && is_digit_char(c)) ==> (r matches Ok(true) && int_shape(
            final(stack)@,
            text@.push(c),
        )),
        (old(stack)@ == seq![ParseCtx::Root { value: Option::<JsonValue>::None }] && (dot
            <==> has_dot(text@)) && (exp <==> has_exp(text@)) && (last_exp <==> (text@.len() >= 1
            && is_exp_char(text@.last()))) && num_accept(text@, c)) ==> (r matches Ok(true)
            && num_trace(final(stack)@, text@.push(c))),
        ((dot <==> has_dot(text@)) && (exp <==> has_exp(text@)) && (last_exp <==> (text@.len()
            >= 1 && is_exp_char(text@.last()))) && num_accept(text@, c)) ==> (r matches Ok(true)
            && final(stack)@.drop_last() == old(stack)@ && (final(stack)@.last() matches
            ParseCtx::Num { text: t2, dot: d2, exp: e2, last_exp: l2 } && t2@ == text@.push(c))),
        old(stack)@.last() matches ParseCtx::Arr { items, expect } ==> ((is_digit_char(
            text@[text@.len() - 1],
        ) && !is_digit_char(c) && !(c == '.' && !dot && !exp) && !(is_exp_char(c) && !exp) && !((c
            == '+' || c == '-') && last_exp) && !dot && !exp && i64::MIN <= int_text_val(text@)
            <= i64::MAX) ==> (r matches Ok(false)
            && final(stack)@.drop_last() == old(stack)@.drop_last()
            && (final(stack)@.last() matches ParseCtx::Arr { items: ni, expect: e2 }
            && ni@ == items@.push(JsonValue::Number(JsonNumber::Int(int_text_val(text@) as i64)))
            && e2 is Sep))),
{
            let mut text = text;
            let ghost t0 = text@;
            proof {
                assert(num_prefix_wf(t0, dot, exp, last_exp));
            }
            let tl = text.len();
            if is_digit(c) {
                text.push(c);
                let top = ParseCtx::Num { text, dot, exp, last_exp: false };
                proof {
                    lemma_num_push(t0, dot, exp, last_exp, c, dot, exp, false);
                    lemma_has_push(t0, c);
                    lemma_stack_push(old(stack)@, top);
                }
                stack.push(top);
                Ok(true)
            } else if c == '.' && !dot && !exp && is_digit(text[tl - 1]) {
                text.push(c);
                let top = ParseCtx::Num { text, dot: true, exp, last_exp: false };
                proof {
                    lemma_num_push(t0, dot, exp, last_exp, c, true, exp, false);
                    lemma_has_push(t0, c);
                    lemma_stack_push(old(stack)@, top);
                }
                stack.push(top);
                Ok(true)
            } else if (c == 'e' || c == 'E') && !exp && is_digit(text[tl - 1]) {
                text.push(c);
                let top = ParseCtx::Num { text, dot, exp: true, last_exp: true };
                proof {
                    lemma_num_push(t0, dot, exp, last_exp, c, dot, true, true);
                    lemma_has_push(t0, c);
                    lemma_stack_push(old(stack)@, top);
                }
                stack.push(top);
                Ok(true)
            } else if (c == '+' || c == '-') && last_exp {
                text.push(c);
                let top = ParseCtx::Num { text, dot, exp, last_exp: false };
                proof {
                    lemma_num_push(t0, dot, exp, last_exp, c, dot, exp, false);
                    lemma_has_push(t0, c);
                    lemma_stack_push(old(stack)@, top);
                }
                stack.push(top);
                Ok(true)
            } else if is_digit(text[tl - 1]) {
                // A terminator: the literal is complete; finish it and ask for
                // the character to be dispatched again.
                match finish_number(stack, text, dot, exp, off, line, column) {
                    Ok(()) => Ok(false),
                    Err(e) => Err(e),
                }
            } else {
                Err(ParseError {
                    kind: ParseErrorKind::UnexpectedCharacter(c),
                    offset: off,
                    line,
                    column,
                })
            }
        
}

/// One character fed to a literal scanner that has just been popped off the
/// stack: the next expected character advances the word; completing the word
/// folds its value; anything else is an error.
fn step_lit(
    stack: &mut Vec<ParseCtx>,
    kind: LitKind,
    matched: u8,
    c: char,
    off: usize,
    line: usize,
    column: usize,
) -> (r: Result<bool, ParseError>)
    requires
        wf_stack(old(stack)@),
        value_slot(old(stack)@.last()),
        matched <= 4,
    ensures
        r matches Ok(b) ==> b && wf_stack(final(stack)@),
        r matches Err(e) ==> e.offset == off && e.line == line && e.column == column,
        r matches Err(e) ==> !(e.kind is UnterminatedStructure) && !(e.kind is TrailingContent)
            && !(e.kind is InvalidEscape) && !(e.kind is NumberOverflow),
        r matches Err(e) ==> (e.kind matches ParseErrorKind::UnexpectedCharacter(f) ==> f == c),
        (old(stack)@ == seq![ParseCtx::Root { value: Option::<JsonValue>::None }] && matched
            < lit_len_spec(kind) && c == lit_text(kind)[matched as int]) ==> (r matches Ok(true)
            && lit_trace(final(stack)@, matched + 1, kind)),
{
    match lit_char(kind, matched) {
        Some(expected) => {
            if c == expected {
                let nm = matched + 1;
                if nm == lit_len(kind) {
                    fold_value(stack, lit_value(kind));
                    Ok(true)
                } else {
                    let top = ParseCtx::Lit { kind, matched: nm };
                    proof {
                        lemma_stack_push(old(stack)@, top);
                    }
                    stack.push(top);
                    proof {
                        if old(stack)@ == seq![ParseCtx::Root {
                            value: Option::<JsonValue>::None,
                        }] {
                            assert(stack@ =~= seq![
                                ParseCtx::Root { value: Option::<JsonValue>::None },
                                ParseCtx::Lit { kind, matched: nm },
                            ]);
                        }
                    }
                    Ok(true)
                }
            } else {
                Err(ParseError {
                    kind: ParseErrorKind::UnexpectedCharacter(c),
                    offset: off,
                    line,
                    column,
                })
            }
        },
        None => Err(ParseError {
            kind: ParseErrorKind::UnexpectedCharacter(c),
            offset: off,
            line,
            column,
        }),
    }
}

/// Appending one accepted character keeps a number prefix well formed.
proof fn lemma_num_push(
    t0: Seq<char>,
    dot0: bool,
    exp0: bool,
    le0: bool,
    c: char,
    dot1: bool,
    exp1: bool,
    le1: bool,
)
    requires
        num_prefix_wf(t0, dot0, exp0, le0),
        ({
            ||| (is_digit_char(c) && dot1 == dot0 && exp1 == exp0 && !le1)
            ||| (c == '.' && !dot0 && !exp0 && is_digit_char(t0.last()) && dot1 && exp1 == exp0
                && !le1)
            ||| (is_exp_char(c) && !exp0 && is_digit_char(t0.last()) && dot1 == dot0 && exp1
                && le1)
            ||| ((c == '+' || c == '-') && le0 && dot1 == dot0 && exp1 == exp0 && !le1)
        }),
    ensures
        num_prefix_wf(t0.push(c), dot1, exp1, le1),
{
    let t1 = t0.push(c);
    lemma_has_push(t0, c);
    assert(t1[t1.len() - 1] == c);
    assert forall|i: int| 0 <= i < t1.len() implies is_num_char(#[trigger] t1[i]) by {
        if i < t0.len() {
            assert(is_num_char(t0[i]));
        }
    }
    assert forall|i: int| 1 <= i < t1.len() && #[trigger] t1[i] == '-' implies is_exp_char(
        t1[i - 1],
    ) by {
        if i < t0.len() {
            assert(t0[i] == '-');
        } else {
            if c == '-' {
                assert(is_exp_char(t0.last()));
            }
        }
    }
    assert forall|i: int| 0 <= i < t1.len() && #[trigger] t1[i] == '+' implies i >= 1
        && is_exp_char(t1[i - 1]) by {
        if i < t0.len() {
            assert(t0[i] == '+');
        } else {
            if c == '+' {
                assert(is_exp_char(t0.last()));
            }
        }
    }
    assert forall|i: int| 0 <= i < t1.len() && #[trigger] t1[i] == '.' implies i >= 1
        && is_digit_char(t1[i - 1]) by {
        if i < t0.len() {
            assert(t0[i] == '.');
        }
    }
    assert forall|i: int| 0 <= i < t1.len() && is_exp_char(#[trigger] t1[i]) implies i >= 1
        && is_digit_char(t1[i - 1]) by {
        if i < t0.len() {
            assert(is_exp_char(t0[i]));
        }
    }
    assert forall|i: int, j: int|
        0 <= i < j < t1.len() && is_exp_char(t1[i]) implies !is_exp_char(t1[j]) && t1[j] != '.' by {
        if j < t0.len() {
            assert(is_exp_char(t0[i]) ==> !is_exp_char(t0[j]) && t0[j] != '.');
        } else {
            if is_exp_char(t0[i]) {
                assert(!is_exp_char(c) && c != '.') by {
                    if !exp0 {
                        assert(!is_exp_char(t0[i]));
                    }
                }
            }
        }
    }
}

/// One character of a string literal: ordinary characters accumulate, escapes
/// decode, a closing quote folds the finished string.  On entry the string
/// context has already been popped off the stack.
fn step_text(
    stack: &mut Vec<ParseCtx>,
    text: Vec<char>,
    esc: EscState,
    c: char,
    off: usize,
    line: usize,
    column: usize,
) -> (r: Result<bool, ParseError>)
    requires
        wf_stack(old(stack)@),
        esc_wf(esc),
        value_slot(old(stack)@.last()) || old(stack)@.last() matches ParseCtx::Field {
            key: Option::None,
            colon: false,
            value: Option::None,
            ..
        },
    ensures
        r matches Ok(b) ==> b && wf_stack(final(stack)@),
        r matches Err(e) ==> e.offset == off && e.line == line && e.column == column && (e.kind
            matches ParseErrorKind::InvalidEscape(f) && f == c),
        (esc == EscState::NotEscaping && c != '"' && c != '\\') ==> (r matches Ok(true)
            && final(stack)@.drop_last() == old(stack)@ && (final(stack)@.last() matches
            ParseCtx::Text { text: t2, esc: e2 } && t2@ == text@.push(c) && e2
            == EscState::NotEscaping)),
        old(stack)@.last() matches ParseCtx::Field {
            key: Option::None,
            colon: false,
            value: Option::None,
            required,
        } ==> ((esc == EscState::NotEscaping && c == '"') ==> (r matches Ok(true)
            && final(stack)@.drop_last() == old(stack)@.drop_last()
            && (final(stack)@.last() matches ParseCtx::Field {
            key: Option::Some(k2),
            colon: false,
            value: Option::None,
            required: r2,
        } && k2@ == text@ && r2 == required))),
        (old(stack)@ == seq![ParseCtx::Root { value: Option::<JsonValue>::None }]) ==> {
            &&& (esc == EscState::NotEscaping && c == '"' ==> (r matches Ok(true) && str_done(
                final(stack)@,
                text@,
            )))
            &&& (esc == EscState::NotEscaping && c == '\\' ==> (r matches Ok(true) && str_top(
                final(stack)@,
                text@,
                true,
            )))
            &&& (esc == EscState::NotEscaping && c != '"' && c != '\\' ==> (r matches Ok(true)
                && str_top(final(stack)@, text@.push(c), false)))
            &&& (esc == EscState::AfterBackslash ==> (esc_decode(c) matches Some(x) ==> (
            r matches Ok(true) && str_top(final(stack)@, text@.push(x), false))))
        },
{
    let mut text = text;
    match esc {
        EscState::NotEscaping => {
            if c == '"' {
                let s = chars_to_string(&text);
                fold_value(stack, JsonValue::String(s));
                Ok(true)
            } else if c == '\\' {
                let top = ParseCtx::Text { text, esc: EscState::AfterBackslash };
                proof {
                    lemma_stack_push(old(stack)@, top);
                }
                stack.push(top);
                Ok(true)
            } else {
                text.push(c);
                let top = ParseCtx::Text { text, esc: EscState::NotEscaping };
                proof {
                    lemma_stack_push(old(stack)@, top);
                }
                stack.push(top);
                Ok(true)
            }
        },
        EscState::AfterBackslash => {
            let decoded: Option<char> = if c == '"' {
                Some('"')
            } else if c == '\\' {
                Some('\\')
            } else if c == '/' {
                Some('/')
            } else if c == 'n' {
                Some('\n')
            } else if c == 't' {
                Some('\t')
            } else if c == 'r' {
                Some('\r')
            } else if c == 'b' {
                Some('\u{0008}')
            } else if c == 'f' {
                Some('\u{000C}')
            } else {
                None
            };
            match decoded {
                Some(d) => {
                    text.push(d);
                    let top = ParseCtx::Text { text, esc: EscState::NotEscaping };
                    proof {
                        lemma_stack_push(old(stack)@, top);
                    }
                    stack.push(top);
                    Ok(true)
                },
                None => {
                    if c == 'u' {
                        let top = ParseCtx::Text { text, esc: EscState::Hex { got: 0, acc: 0 } };
                        proof {
                            lemma_stack_push(old(stack)@, top);
                        }
                        stack.push(top);
                        Ok(true)
                    } else {
                        Err(ParseError {
                            kind: ParseErrorKind::InvalidEscape(c),
                            offset: off,
                            line,
                            column,
                        })
                    }
                },
            }
        },
        EscState::Hex { got, acc } => {
            match hex_val(c) {
                Some(d) => {
                    let na = acc * 16 + d;
                    if got == 3 {
                        if 0xD800 <= na && na < 0xDC00 {
                            let top = ParseCtx::Text {
                                text,
                                esc: EscState::SurBackslash { hi: na },
                            };
                            proof {
                                lemma_stack_push(old(stack)@, top);
                            }
                            stack.push(top);
                            Ok(true)
                        } else if 0xDC00 <= na && na < 0xE000 {
                            // A lone low surrogate has no decoding.
                            Err(ParseError {
                                kind: ParseErrorKind::InvalidEscape(c),
                                offset: off,
                                line,
                                column,
                            })
                        } else {
                            match char_from_u32(na) {
                                Some(ch) => {
                                    text.push(ch);
                                    let top = ParseCtx::Text {
                                        text,
                                        esc: EscState::NotEscaping,
                                    };
                                    proof {
                                        lemma_stack_push(old(stack)@, top);
                                    }
                                    stack.push(top);
                                    Ok(true)
                                },
                                None => {
                                    proof {
                                        assert(false);
                                    }
                                    Err(ParseError {
                                        kind: ParseErrorKind::InvalidEscape(c),
                                        offset: off,
                                        line,
                                        column,
                                    })
                                },
                            }
                        }
                    } else {
                        let top = ParseCtx::Text {
                            text,
                            esc: EscState::Hex { got: got + 1, acc: na },
                        };
                        proof {
                            lemma_stack_push(old(stack)@, top);
                        }
                        stack.push(top);
                        Ok(true)
                    }
                },
                None => Err(ParseError {
                    kind: ParseErrorKind::InvalidEscape(c),
                    offset: off,
                    line,
                    column,
                }),
            }
        },
        EscState::SurBackslash { hi } => {
            if c == '\\' {
                let top = ParseCtx::Text { text, esc: EscState::SurU { hi } };
                proof {
                    lemma_stack_push(old(stack)@, top);
                }
                stack.push(top);
                Ok(true)
            } else {
                Err(ParseError {
                    kind: ParseErrorKind::InvalidEscape(c),
                    offset: off,
                    line,
                    column,
                })
            }
        },
        EscState::SurU { hi } => {
            if c == 'u' {
                let top = ParseCtx::Text { text, esc: EscState::SurHex { hi, got: 0, acc: 0 } };
                proof {
                    lemma_stack_push(old(stack)@, top);
                }
                stack.push(top);
                Ok(true)
            } else {
                Err(ParseError {
                    kind: ParseErrorKind::InvalidEscape(c),
                    offset: off,
                    line,
                    column,
                })
            }
        },
        EscState::SurHex { hi, got, acc } => {
            match hex_val(c) {
                Some(d) => {
                    let na = acc * 16 + d;
                    if got == 3 {
                        if 0xDC00 <= na && na < 0xE000 {
                            let code = 0x10000 + (hi - 0xD800) * 0x400 + (na - 0xDC00);
                            match char_from_u32(code) {
                                Some(ch) => {
                                    text.push(ch);
                                    let top = ParseCtx::Text {
                                        text,
                                        esc: EscState::NotEscaping,
                                    };
                                    proof {
                                        lemma_stack_push(old(stack)@, top);
                                    }
                                    stack.push(top);
                                    Ok(true)
                                },
                                None => {
                                    proof {
                                        assert(false);
                                    }
                                    Err(ParseError {
                                        kind: ParseErrorKind::InvalidEscape(c),
                                        offset: off,
                                        line,
                                        column,
                                    })
                                },
                            }
                        } else {
                            // The second escape of a surrogate pair must be a
                            // low surrogate.
                            Err(ParseError {
                                kind: ParseErrorKind::InvalidEscape(c),
                                offset: off,
                                line,
                                column,
                            })
                        }
                    } else {
                        let top = ParseCtx::Text {
                            text,
                            esc: EscState::SurHex { hi, got: got + 1, acc: na },
                        };
                        proof {
                            lemma_stack_push(old(stack)@, top);
                        }
                        stack.push(top);
                        Ok(true)
                    }
                },
                None => Err(ParseError {
                    kind: ParseErrorKind::InvalidEscape(c),
                    offset: off,
                    line,
                    column,
                }),
            }
        },
    }
}

/// The diagnostic kind tag of a context.
pub open spec fn spec_kind_of(ctx: ParseCtx) -> CtxKind {
    match ctx {
        ParseCtx::Root { .. } => CtxKind::Root,
        ParseCtx::Obj { .. } => CtxKind::Object,
        ParseCtx::Field { .. } => CtxKind::ObjectField,
        ParseCtx::Arr { .. } => CtxKind::Array,
        ParseCtx::Text { .. } => CtxKind::StringText,
        ParseCtx::Num { .. } => CtxKind::NumberText,
        ParseCtx::Lit { .. } => CtxKind::LiteralWord,
    }
}

/// The kind tag of a context, for diagnostics.
fn kind_of(ctx: &ParseCtx) -> (r: CtxKind)
    ensures
        r == spec_kind_of(*ctx),
{
    match ctx {
        ParseCtx::Root { .. } => CtxKind::Root,
        ParseCtx::Obj { .. } => CtxKind::Object,
        ParseCtx::Field { .. } => CtxKind::ObjectField,
        ParseCtx::Arr { .. } => CtxKind::Array,
        ParseCtx::Text { .. } => CtxKind::StringText,
        ParseCtx::Num { .. } => CtxKind::NumberText,
        ParseCtx::Lit { .. } => CtxKind::LiteralWord,
    }
}

/// The kinds of the contexts still open, outermost first: one tag for each
/// context on the stack, in order.
fn open_kinds(stack: &Vec<ParseCtx>) -> (r: Vec<CtxKind>)
    ensures
        r@.len() == stack@.len(),
        forall|k: int| 0 <= k < stack@.len() ==> r@[k] == spec_kind_of(#[trigger] stack@[k]),
{
    let mut out: Vec<CtxKind> = Vec::new();
    let mut i: usize = 0;
    while i < stack.len()
        invariant
            i <= stack@.len(),
            out@.len() == i,
            forall|k: int| 0 <= k < i ==> out@[k] == spec_kind_of(#[trigger] stack@[k]),
        decreases stack@.len() - i,
    {
        out.push(kind_of(&stack[i]));
        i = i + 1;
    }
    out
}

/// Parses a JSON document into a value tree.
///
/// A successful parse yields a well-formed value: no internal placeholder,
/// every float holding valid number text, every object's keys distinct.  An
/// error reports the character offset, line and column at which the parse
/// stopped; an unexpected character, a bad escape and trailing content each
/// carry the very character found at that offset, and an unterminated
/// document is always reported at the end of the input.
///
/// For a document that is a single scalar token the result is pinned exactly:
/// an integer literal yields that integer, or a number-overflow error
/// precisely when it does not fit a signed 64-bit value; a number literal
/// with a decimal point or exponent yields a float holding that very text;
/// `true`, `false` and `null` yield their values; `{}` yields the empty
/// object.  Together with [`crate::number::lemma_int_round_trip`] this gives
/// the round trip: rendering an integer value and parsing the text yields the
/// value back.
#[verifier::rlimit(100)]
#[verifier::spinoff_prover]
pub fn parse_str(s: &str) -> (r: Result<JsonValue, ParseError>)
    ensures
        r matches Ok(v) ==> wf_value(v),
        r matches Err(e) ==> e.offset <= s@.len() && e.line == spec_line_at(s@, e.offset as int)
            && e.column == spec_col_at(s@, e.offset as int),
        r matches Err(e) ==> (e.kind matches ParseErrorKind::UnexpectedCharacter(f) ==> e.offset
            < s@.len() && s@[e.offset as int] == f),
        r matches Err(e) ==> (e.kind matches ParseErrorKind::InvalidEscape(f) ==> e.offset
            < s@.len() && s@[e.offset as int] == f),
        r matches Err(e) ==> (e.kind matches ParseErrorKind::TrailingContent(f) ==> e.offset
            < s@.len() && s@[e.offset as int] == f),
        r matches Err(e) ==> (e.kind is UnterminatedStructure ==> e.offset == s@.len()),
        r matches Err(e) ==> (e.kind matches ParseErrorKind::UnterminatedStructure(ks) ==> ks@.len()
            >= 1 && ks@[0] == CtxKind::Root),
        (is_int_text(s@) && i64::MIN <= int_text_val(s@) <= i64::MAX) ==> (r matches Ok(v) && v
            == JsonValue::Number(JsonNumber::Int(int_text_val(s@) as i64))),
        (is_int_text(s@) && !(i64::MIN <= int_text_val(s@) <= i64::MAX)) ==> (r matches Err(e)
            && e.kind is NumberOverflow && e.offset == s@.len()),
        s@ == lit_text(LitKind::True) ==> r == Ok::<JsonValue, ParseError>(JsonValue::Bool(true)),
        s@ == lit_text(LitKind::False) ==> r == Ok::<JsonValue, ParseError>(JsonValue::Bool(
            false,
        )),
        s@ == lit_text(LitKind::Null) ==> r == Ok::<JsonValue, ParseError>(JsonValue::Null),
        (is_number_text(s@) && (has_dot(s@) || has_exp(s@))) ==> (r matches Ok(v) && v matches
            JsonValue::Number(n) && n matches JsonNumber::Float(fs) && fs@ == s@),
        s@ == seq!['{', '}'] ==> (r matches Ok(v) && v matches JsonValue::Object(es) && es@.len()
            == 0),
        (forall|k: int| 0 <= k < s@.len() ==> is_ws_char(#[trigger] s@[k])) ==> (r matches Err(e)
            && (e.kind matches ParseErrorKind::UnterminatedStructure(ks) && ks@
            == seq![CtxKind::Root]) && e.offset == s@.len()),
        is_simple_string_doc(s@) ==> (r matches Ok(v) && (v matches JsonValue::String(ds) && (
        str_scan(s@.subrange(1, s@.len() - 1)) matches Some(sc) && ds@ == sc.0))),
        s@ == seq!['[', '1', ',', ' ', '2', ',', ']'] ==> (r matches Err(e) && (e.kind matches
            ParseErrorKind::UnexpectedCharacter(f) && f == ']') && e.offset == 6),
        s@ == seq!['{', '"', 'a', '"', ':', ' ', '1'] ==> (r matches Err(e) && (e.kind matches
            ParseErrorKind::UnterminatedStructure(ks) && ks@ == seq![
            CtxKind::Root,
            CtxKind::Object,
            CtxKind::ObjectField,
        ])),
{
    let chars = str_to_chars(s);
    let mut stack: Vec<ParseCtx> = Vec::new();
    stack.push(ParseCtx::Root { value: None });
    proof {
        assert(stack@ =~= seq![ParseCtx::Root { value: Option::<JsonValue>::None }]);
    }
    let mut i: usize = 0;
    let mut line: usize = 1;
    let mut column: usize = 1;
    while i < chars.len()
        invariant
            chars@ == s@,
            chars@.len() <= usize::MAX / 2,
            wf_stack(stack@),
            i <= chars@.len(),
            line == spec_line_at(s@, i as int),
            column == spec_col_at(s@, i as int),
            line <= i + 1,
            column <= i + 1,
            is_int_text(s@) ==> (if i == 0 {
                stack@ == seq![ParseCtx::Root { value: Option::<JsonValue>::None }]
            } else {
                int_shape(stack@, s@.take(i as int))
            }),
            s@ == lit_text(LitKind::True) ==> lit_trace(stack@, i as int, LitKind::True),
            s@ == lit_text(LitKind::False) ==> lit_trace(stack@, i as int, LitKind::False),
            s@ == lit_text(LitKind::Null) ==> lit_trace(stack@, i as int, LitKind::Null),
            is_number_text(s@) ==> (if i == 0 {
                stack@ == seq![ParseCtx::Root { value: Option::<JsonValue>::None }]
            } else {
                num_trace(stack@, s@.take(i as int))
            }),
            s@ == seq!['{', '}'] ==> (if i == 0 {
                stack@ == seq![ParseCtx::Root { value: Option::<JsonValue>::None }]
            } else if i == 1 {
                obj_open_trace(stack@)
            } else {
                obj_done_trace(stack@)
            }),
            (forall|k: int| 0 <= k < s@.len() ==> is_ws_char(#[trigger] s@[k])) ==> stack@
                == seq![ParseCtx::Root { value: Option::<JsonValue>::None }],
            is_simple_string_doc(s@) ==> (if i == 0 {
                stack@ == seq![ParseCtx::Root { value: Option::<JsonValue>::None }]
            } else if i < s@.len() {
                str_trace(stack@, s@.subrange(1, i as int))
            } else {
                str_scan(s@.subrange(1, s@.len() - 1)) matches Some(sc) && str_done(
                    stack@,
                    sc.0,
                )
            }),
            s@ == seq!['[', '1', ',', ' ', '2', ',', ']'] ==> (i <= 6 && (if i == 0 {
                stack@ == seq![ParseCtx::Root { value: Option::<JsonValue>::None }]
            } else if i == 1 {
                arr_top(stack@, Seq::empty(), ArrExpect::First)
            } else if i == 2 {
                arr_num_top(stack@, Seq::empty(), ArrExpect::First, seq!['1'])
            } else if i <= 4 {
                arr_top(stack@, seq![int_val(1)], ArrExpect::Item)
            } else if i == 5 {
                arr_num_top(stack@, seq![int_val(1)], ArrExpect::Item, seq!['2'])
            } else {
                arr_top(stack@, seq![int_val(1), int_val(2)], ArrExpect::Item)
            })),
            s@ == seq!['{', '"', 'a', '"', ':', ' ', '1'] ==> (if i == 0 {
                stack@ == seq![ParseCtx::Root { value: Option::<JsonValue>::None }]
            } else if i == 1 {
                obj_open_trace(stack@)
            } else if i == 2 {
                member_text_top(stack@, Seq::empty())
            } else if i == 3 {
                member_text_top(stack@, seq!['a'])
            } else if i == 4 {
                member_key_top(stack@, seq!['a'], false)
            } else if i <= 6 {
                member_key_top(stack@, seq!['a'], true)
            } else {
                member_num_top(stack@, seq!['a'], seq!['1'])
            })
        decreases chars@.len() - i,
    {
        let c = chars[i];
        loop
            invariant_except_break
                is_int_text(s@) ==> (if i == 0 {
                    stack@ == seq![ParseCtx::Root { value: Option::<JsonValue>::None }]
                } else {
                    int_shape(stack@, s@.take(i as int))
                }),
                s@ == lit_text(LitKind::True) ==> lit_trace(stack@, i as int, LitKind::True),
                s@ == lit_text(LitKind::False) ==> lit_trace(stack@, i as int, LitKind::False),
                s@ == lit_text(LitKind::Null) ==> lit_trace(stack@, i as int, LitKind::Null),
                is_number_text(s@) ==> (if i == 0 {
                    stack@ == seq![ParseCtx::Root { value: Option::<JsonValue>::None }]
                } else {
                    num_trace(stack@, s@.take(i as int))
                }),
                s@ == seq!['{', '}'] ==> (if i == 0 {
                    stack@ == seq![ParseCtx::Root { value: Option::<JsonValue>::None }]
                } else {
                    obj_open_trace(stack@)
                }),
                (forall|k: int| 0 <= k < s@.len() ==> is_ws_char(#[trigger] s@[k])) ==> stack@
                    == seq![ParseCtx::Root { value: Option::<JsonValue>::None }],
                is_simple_string_doc(s@) ==> (if i == 0 {
                    stack@ == seq![ParseCtx::Root { value: Option::<JsonValue>::None }]
                } else {
                    str_trace(stack@, s@.subrange(1, i as int))
                }),
                s@ == seq!['[', '1', ',', ' ', '2', ',', ']'] ==> (i <= 6 && ((if i == 0 {
                stack@ == seq![ParseCtx::Root { value: Option::<JsonValue>::None }]
            } else if i == 1 {
                arr_top(stack@, Seq::empty(), ArrExpect::First)
            } else if i == 2 {
                arr_num_top(stack@, Seq::empty(), ArrExpect::First, seq!['1'])
            } else if i <= 4 {
                arr_top(stack@, seq![int_val(1)], ArrExpect::Item)
            } else if i == 5 {
                arr_num_top(stack@, seq![int_val(1)], ArrExpect::Item, seq!['2'])
            } else {
                arr_top(stack@, seq![int_val(1), int_val(2)], ArrExpect::Item)
            })
                    || (i == 2 && arr_top(stack@, seq![int_val(1)], ArrExpect::Sep)) || (i == 5
                    && arr_top(stack@, seq![int_val(1), int_val(2)], ArrExpect::Sep)))),
                s@ == seq!['{', '"', 'a', '"', ':', ' ', '1'] ==> (if i == 0 {
                    stack@ == seq![ParseCtx::Root { value: Option::<JsonValue>::None }]
                } else if i == 1 {
                    obj_open_trace(stack@)
                } else if i == 2 {
                    member_text_top(stack@, Seq::empty())
                } else if i == 3 {
                    member_text_top(stack@, seq!['a'])
                } else if i == 4 {
                    member_key_top(stack@, seq!['a'], false)
                } else if i <= 6 {
                    member_key_top(stack@, seq!['a'], true)
                } else {
                    member_num_top(stack@, seq!['a'], seq!['1'])
                }),
            invariant
                wf_stack(stack@),
                chars@ == s@,
                chars@.len() <= usize::MAX / 2,
                i < chars@.len(),
                c == chars@[i as int],
                line == spec_line_at(s@, i as int),
                column == spec_col_at(s@, i as int),
            ensures
                wf_stack(stack@),
                is_int_text(s@) ==> int_shape(stack@, s@.take(i as int + 1)),
                s@ == lit_text(LitKind::True) ==> lit_trace(stack@, i as int + 1, LitKind::True),
                s@ == lit_text(LitKind::False) ==> lit_trace(
                    stack@,
                    i as int + 1,
                    LitKind::False,
                ),
                s@ == lit_text(LitKind::Null) ==> lit_trace(stack@, i as int + 1, LitKind::Null),
                is_number_text(s@) ==> num_trace(stack@, s@.take(i as int + 1)),
                s@ == seq!['{', '}'] ==> (if i == 0 {
                    obj_open_trace(stack@)
                } else {
                    obj_done_trace(stack@)
                }),
                (forall|k: int| 0 <= k < s@.len() ==> is_ws_char(#[trigger] s@[k])) ==> stack@
                    == seq![ParseCtx::Root { value: Option::<JsonValue>::None }],
                is_simple_string_doc(s@) ==> (if i as int + 1 < s@.len() {
                    str_trace(stack@, s@.subrange(1, i as int + 1))
                } else {
                    str_scan(s@.subrange(1, s@.len() - 1)) matches Some(sc) && str_done(
                        stack@,
                        sc.0,
                    )
                }),
                s@ == seq!['[', '1', ',', ' ', '2', ',', ']'] ==> (i <= 5 && (if i == 0 {
                    arr_top(stack@, Seq::empty(), ArrExpect::First)
                } else if i == 1 {
                    arr_num_top(stack@, Seq::empty(), ArrExpect::First, seq!['1'])
                } else if i <= 3 {
                    arr_top(stack@, seq![int_val(1)], ArrExpect::Item)
                } else if i == 4 {
                    arr_num_top(stack@, seq![int_val(1)], ArrExpect::Item, seq!['2'])
                } else {
                    arr_top(stack@, seq![int_val(1), int_val(2)], ArrExpect::Item)
                })),
                s@ == seq!['{', '"', 'a', '"', ':', ' ', '1'] ==> (if i == 0 {
                    obj_open_trace(stack@)
                } else if i == 1 {
                    member_text_top(stack@, Seq::empty())
                } else if i == 2 {
                    member_text_top(stack@, seq!['a'])
                } else if i == 3 {
                    member_key_top(stack@, seq!['a'], false)
                } else if i <= 5 {
                    member_key_top(stack@, seq!['a'], true)
                } else {
                    member_num_top(stack@, seq!['a'], seq!['1'])
                }),
            decreases stack@.len(),
        {
            let ghost pre = stack@;
            match step(&mut stack, c, i, line, column) {
                Ok(true) => {
                    proof {
                        if is_int_text(s@) {
                            if i == 0 {
                                assert(s@.take(1) =~= seq![c]);
                            } else {
                                assert(s@.take(i as int).push(c) =~= s@.take(i as int + 1));
                            }
                        }
                        if is_number_text(s@) {
                            if i == 0 {
                                assert(s@.take(1) =~= seq![c]);
                                assert(!has_dot(seq![c])) by {
                                    if has_dot(seq![c]) {
                                        let k = choose|k: int|
                                            0 <= k < 1 && seq![c][k] == '.';
                                        assert(seq![c][k] == c);
                                    }
                                }
                                assert(!has_exp(seq![c])) by {
                                    if has_exp(seq![c]) {
                                        let k = choose|k: int|
                                            0 <= k < 1 && is_exp_char(#[trigger] seq![c][k]);
                                        assert(seq![c][k] == c);
                                    }
                                }
                            } else {
                                lemma_number_doc_accept(s@, i as int);
                                assert(s@.take(i as int).push(c) =~= s@.take(i as int + 1));
                            }
                            assert(num_trace(stack@, s@.take(i as int + 1)));
                        }
                        if s@ == lit_text(LitKind::True) {
                            assert(lit_text(LitKind::True)[0] == 't');
                            assert(lit_trace(stack@, i as int + 1, LitKind::True));
                        }
                        if s@ == lit_text(LitKind::False) {
                            assert(lit_text(LitKind::False)[0] == 'f');
                            assert(lit_trace(stack@, i as int + 1, LitKind::False));
                        }
                        if s@ == lit_text(LitKind::Null) {
                            assert(lit_text(LitKind::Null)[0] == 'n');
                            assert(lit_trace(stack@, i as int + 1, LitKind::Null));
                        }
                        if s@ == seq!['{', '}'] {
                            assert(c == s@[i as int]);
                        }
                        if is_simple_string_doc(s@) {
                            let ghost inner = s@.subrange(1, s@.len() - 1);
                            if i == 0 {
                                assert(s@.subrange(1, 1) =~= Seq::<char>::empty());
                            } else if i as int + 1 < s@.len() {
                                lemma_str_scan_prefix(inner, i as int);
                                assert(inner.take(i as int) =~= s@.subrange(1, i as int + 1));
                                assert(s@.subrange(1, i as int + 1).drop_last() =~= s@.subrange(
                                    1,
                                    i as int,
                                ));
                                assert(s@.subrange(1, i as int + 1).last() == c);
                                assert(str_trace(stack@, s@.subrange(1, i as int + 1)));
                            } else {
                                assert(s@.subrange(1, i as int) =~= inner);
                                assert(c == '"');
                            }
                        }
                        if s@ == seq!['[', '1', ',', ' ', '2', ',', ']'] {
                            assert(c == s@[i as int]);
                            if i == 2 {
                                if arr_num_top(pre, Seq::empty(), ArrExpect::First, seq!['1']) {
                                    lemma_digit_singleton('1');
                                    assert(!num_accept(seq!['1'], c));
                                    assert(false);
                                } else {
                                    assert(arr_top(stack@, seq![int_val(1)], ArrExpect::Item));
                                }
                            } else if i == 5 {
                                if arr_num_top(pre, seq![int_val(1)], ArrExpect::Item, seq!['2']) {
                                    lemma_digit_singleton('2');
                                    assert(!num_accept(seq!['2'], c));
                                    assert(false);
                                } else {
                                    assert(arr_top(
                                        stack@,
                                        seq![int_val(1), int_val(2)],
                                        ArrExpect::Item,
                                    ));
                                }
                            } else if i == 6 {
                                assert(false);
                            } else if i == 1 || i == 4 {
                                assert(stack@[0] == stack@.drop_last()[0]);
                                assert(stack@[1] == stack@.drop_last()[1]);
                            }
                        }
                        if s@ == seq!['{', '"', 'a', '"', ':', ' ', '1'] {
                            assert(c == s@[i as int]);
                            if i == 0 {
                                assert(obj_open_trace(stack@));
                            } else if i == 1 {
                                assert(stack@[0] == stack@.drop_last()[0]);
                                assert(stack@[1] == stack@.drop_last()[1]);
                                assert(stack@[2] == stack@.drop_last()[2]);
                                assert(member_text_top(stack@, Seq::empty()));
                            } else if i == 2 {
                                assert(Seq::<char>::empty().push('a') =~= seq!['a']);
                                assert(stack@[0] == stack@.drop_last()[0]);
                                assert(stack@[1] == stack@.drop_last()[1]);
                                assert(stack@[2] == stack@.drop_last()[2]);
                                assert(member_text_top(stack@, seq!['a']));
                            } else if i == 3 {
                                assert(pre.last() == pre[3]);
                                assert(pre[3] matches ParseCtx::Text { text: xt, esc: xe } && xt@
                                    == seq!['a'] && xe == EscState::NotEscaping);
                                assert(c == '"');
                                assert(pre.drop_last().last() == pre[2]);
                                assert(pre.drop_last().last() matches ParseCtx::Field {
                                    key: Option::None,
                                    colon: false,
                                    value: Option::None,
                                    required,
                                } && !required);
                                assert(stack@.drop_last() == pre.drop_last().drop_last());
                                assert(pre.drop_last().drop_last()[0] == pre[0]);
                                assert(pre.drop_last().drop_last()[1] == pre[1]);
                                assert(stack@[0] == stack@.drop_last()[0]);
                                assert(stack@[1] == stack@.drop_last()[1]);
                                assert(stack@.len() == 3);
                                assert(stack@[0] == (ParseCtx::Root {
                                    value: Option::<JsonValue>::None,
                                }));
                                assert(stack@[1] matches ParseCtx::Obj { entries } && entries@.len()
                                    == 0);
                                assert(stack@[2] matches ParseCtx::Field {
                                    key: Option::Some(k2),
                                    colon: c2,
                                    value: Option::None,
                                    required: r2,
                                } && k2@ == seq!['a'] && c2 == false && !r2);
                                assert(member_key_top(stack@, seq!['a'], false));
                            } else if i == 4 {
                                assert(stack@[0] == stack@.drop_last()[0]);
                                assert(stack@[1] == stack@.drop_last()[1]);
                                assert(member_key_top(stack@, seq!['a'], true));
                            } else if i == 5 {
                                assert(member_key_top(stack@, seq!['a'], true));
                            } else if i == 6 {
                                assert(stack@.drop_last()[0] == stack@[0]);
                                assert(stack@.drop_last()[1] == stack@[1]);
                                assert(stack@.drop_last()[2] == stack@[2]);
                                assert(member_key_top(stack@.drop_last(), seq!['a'], true));
                                assert(member_num_top(stack@, seq!['a'], seq!['1']));
                            }
                        }
                    }
                    break;
                },
                Ok(false) => {
                    proof {
                        if is_int_text(s@) {
                            assert(false);
                        }
                        if is_number_text(s@) {
                            if i > 0 {
                                lemma_number_doc_accept(s@, i as int);
                            }
                            assert(false);
                        }
                        if s@ == lit_text(LitKind::True) {
                            assert(lit_text(LitKind::True)[0] == 't');
                            assert(false);
                        }
                        if s@ == lit_text(LitKind::False) {
                            assert(lit_text(LitKind::False)[0] == 'f');
                            assert(false);
                        }
                        if s@ == lit_text(LitKind::Null) {
                            assert(lit_text(LitKind::Null)[0] == 'n');
                            assert(false);
                        }
                        if s@ == seq!['{', '}'] {
                            assert(c == s@[i as int]);
                            assert(false);
                        }
                        if forall|k: int| 0 <= k < s@.len() ==> is_ws_char(#[trigger] s@[k]) {
                            assert(is_ws_char(c));
                            assert(false);
                        }
                        if is_simple_string_doc(s@) {
                            let ghost inner = s@.subrange(1, s@.len() - 1);
                            if i >= 1 && i as int + 1 < s@.len() {
                                lemma_str_scan_prefix(inner, i as int);
                                assert(inner.take(i as int) =~= s@.subrange(1, i as int + 1));
                                assert(s@.subrange(1, i as int + 1).drop_last() =~= s@.subrange(
                                    1,
                                    i as int,
                                ));
                                assert(s@.subrange(1, i as int + 1).last() == c);
                            }
                            if i >= 1 && i as int + 1 == s@.len() {
                                assert(s@.subrange(1, i as int) =~= inner);
                                assert(c == '"');
                            }
                            assert(false);
                        }
                        if s@ == seq!['[', '1', ',', ' ', '2', ',', ']'] {
                            assert(c == s@[i as int]);
                            if i == 2 && arr_num_top(pre, Seq::empty(), ArrExpect::First, seq![
                                '1',
                            ]) {
                                lemma_digit_singleton('1');
                                assert(!num_accept(seq!['1'], c));
                                assert(pre.drop_last().drop_last() =~= seq![ParseCtx::Root {
                                    value: Option::<JsonValue>::None,
                                }]);
                                assert(Seq::<JsonValue>::empty().push(int_val(1)) =~= seq![
                                    int_val(1),
                                ]);
                                assert(stack@[0] == stack@.drop_last()[0]);
                                assert(arr_top(stack@, seq![int_val(1)], ArrExpect::Sep));
                            } else if i == 5 && arr_num_top(pre, seq![int_val(1)], ArrExpect::Item,
                                seq!['2']) {
                                lemma_digit_singleton('2');
                                assert(!num_accept(seq!['2'], c));
                                assert(pre.drop_last().drop_last() =~= seq![ParseCtx::Root {
                                    value: Option::<JsonValue>::None,
                                }]);
                                assert(seq![int_val(1)].push(int_val(2)) =~= seq![
                                    int_val(1),
                                    int_val(2),
                                ]);
                                assert(stack@[0] == stack@.drop_last()[0]);
                                assert(arr_top(
                                    stack@,
                                    seq![int_val(1), int_val(2)],
                                    ArrExpect::Sep,
                                ));
                            } else {
                                assert(false);
                            }
                        }
                        if s@ == seq!['{', '"', 'a', '"', ':', ' ', '1'] {
                            assert(c == s@[i as int]);
                            assert(false);
                        }
                    }
                },
                Err(e) => {
                    proof {
                        if is_int_text(s@) {
                            assert(false);
                        }
                        if is_number_text(s@) {
                            if i > 0 {
                                lemma_number_doc_accept(s@, i as int);
                            }
                            assert(false);
                        }
                        if s@ == lit_text(LitKind::True) {
                            assert(lit_text(LitKind::True)[0] == 't');
                            assert(false);
                        }
                        if s@ == lit_text(LitKind::False) {
                            assert(lit_text(LitKind::False)[0] == 'f');
                            assert(false);
                        }
                        if s@ == lit_text(LitKind::Null) {
                            assert(lit_text(LitKind::Null)[0] == 'n');
                            assert(false);
                        }
                        if s@ == seq!['{', '}'] {
                            assert(c == s@[i as int]);
                            assert(false);
                        }
                        if forall|k: int| 0 <= k < s@.len() ==> is_ws_char(#[trigger] s@[k]) {
                            assert(is_ws_char(c));
                            assert(false);
                        }
                        if is_simple_string_doc(s@) {
                            let ghost inner = s@.subrange(1, s@.len() - 1);
                            if i >= 1 && i as int + 1 < s@.len() {
                                lemma_str_scan_prefix(inner, i as int);
                                assert(inner.take(i as int) =~= s@.subrange(1, i as int + 1));
                                assert(s@.subrange(1, i as int + 1).drop_last() =~= s@.subrange(
                                    1,
                                    i as int,
                                ));
                                assert(s@.subrange(1, i as int + 1).last() == c);
                            }
                            if i >= 1 && i as int + 1 == s@.len() {
                                assert(s@.subrange(1, i as int) =~= inner);
                                assert(c == '"');
                            }
                            assert(false);
                        }
                        if s@ == seq!['[', '1', ',', ' ', '2', ',', ']'] {
                            assert(c == s@[i as int]);
                            if i == 2 {
                                if arr_num_top(pre, Seq::empty(), ArrExpect::First, seq!['1']) {
                                    lemma_digit_singleton('1');
                                    assert(!num_accept(seq!['1'], c));
                                }
                                assert(false);
                            } else if i == 5 {
                                if arr_num_top(pre, seq![int_val(1)], ArrExpect::Item, seq![
                                    '2',
                                ]) {
                                    lemma_digit_singleton('2');
                                    assert(!num_accept(seq!['2'], c));
                                }
                                assert(false);
                            } else if i != 6 {
                                assert(false);
                            }
                        }
                        if s@ == seq!['{', '"', 'a', '"', ':', ' ', '1'] {
                            assert(c == s@[i as int]);
                            assert(false);
                        }
                    }
                    return Err(e);
                },
            }
        }
        if c == '\n' {
            line = line + 1;
            column = 1;
        } else {
            column = column + 1;
        }
        i = i + 1;
    }
    proof {
        if s@ == lit_text(LitKind::True) {
            assert(lit_text(LitKind::True).len() == 4);
        }
        if s@ == lit_text(LitKind::False) {
            assert(lit_text(LitKind::False).len() == 5);
        }
        if s@ == lit_text(LitKind::Null) {
            assert(lit_text(LitKind::Null).len() == 4);
        }
    }
    // At the end of the input a complete number on top of the stack ends here.
    let nlen = stack.len();
    proof {
        assert(ctx_wf(stack@[nlen - 1]));
        if nlen >= 2 {
            assert(can_stack(stack@[nlen as int - 2], stack@[nlen - 1]));
        }
    }
    let num_complete: bool = match &stack[nlen - 1] {
        ParseCtx::Num { text, .. } => is_digit(text[text.len() - 1]),
        _ => false,
    };
    if num_complete {
        let ghost pre = stack@;
        match stack.pop() {
            Some(ParseCtx::Num { text, dot, exp, last_exp }) => {
                proof {
                    lemma_stack_pop(pre);
                    if is_int_text(s@) {
                        assert(s@.take(s@.len() as int) =~= s@);
                        assert(stack@ =~= seq![ParseCtx::Root {
                            value: Option::<JsonValue>::None,
                        }]);
                    }
                    if is_number_text(s@) {
                        assert(s@.take(s@.len() as int) =~= s@);
                        assert(stack@ =~= seq![ParseCtx::Root {
                            value: Option::<JsonValue>::None,
                        }]);
                    }
                    if s@ == seq!['{', '"', 'a', '"', ':', ' ', '1'] {
                        lemma_digit_singleton('1');
                        assert(member_key_top(stack@, seq!['a'], true));
                    }
                }
                match finish_number(&mut stack, text, dot, exp, chars.len(), line, column) {
                    Ok(()) => {},
                    Err(e) => {
                        return Err(e);
                    },
                }
            },
            _ => {
                proof {
                    assert(false);
                }
            },
        }
    }
    proof {
        assert(ctx_wf(stack@[0]));
    }
    if stack.len() == 1 {
        let ghost fin = stack@;
        match stack.pop() {
            Some(ParseCtx::Root { value: Some(v) }) => {
                proof {
                    assert(ctx_wf(fin[0]));
                }
                return Ok(v);
            },
            Some(ParseCtx::Root { value: None }) => {
                let mut kinds: Vec<CtxKind> = Vec::new();
                kinds.push(CtxKind::Root);
                proof {
                    assert(kinds@ =~= seq![CtxKind::Root]);
                }
                return Err(ParseError {
                    kind: ParseErrorKind::UnterminatedStructure(kinds),
                    offset: chars.len(),
                    line,
                    column,
                });
            },
            _ => {
                proof {
                    assert(false);
                }
            },
        }
    }
    let kinds = open_kinds(&stack);
    proof {
        if s@ == seq!['{', '"', 'a', '"', ':', ' ', '1'] {
            assert(kinds@ =~= seq![CtxKind::Root, CtxKind::Object, CtxKind::ObjectField]);
        }
    }
    Err(ParseError {
        kind: ParseErrorKind::UnterminatedStructure(kinds),
        offset: chars.len(),
        line,
        column,
    })
}

} // verus!
