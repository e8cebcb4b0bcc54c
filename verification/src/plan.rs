//! Decoding the plan payload into a generic tree.
//!
//! The payload arrives with every newline written as the literal
//! two-character sequence `\n`.  `escape` turns those back into newline
//! characters; the result is then parsed as ordinary JSON into a
//! [`PlanValue`] tree.  Field keys of the embedded format carry their own
//! surrounding quote characters (an upstream double-encoding); they are kept
//! verbatim, and objects keep their entries as an explicit ordered list of
//! pairs in the decoder's traversal order.

use vstd::prelude::*;
use crate::PlanError;
use crate::text::{chars_of, string_from_chars};
use vstd::string::StringExecFns;

verus! {

/// A generic JSON-like tree.  A number keeps the text the renderer gives
/// for it; an object is an explicit ordered list of key/value pairs whose
/// keys are kept verbatim.
#[derive(Debug, PartialEq, Eq)]
pub enum PlanValue {
    Null,
    Bool(bool),
    Num(String),
    Str(String),
    Arr(Vec<PlanValue>),
    Obj(Vec<(String, PlanValue)>),
}

/// Declares serde_json's `Value` so the trusted conversions below may name
/// it; the library never looks inside one.
#[verifier::external_type_specification]
#[verifier::external_body]
pub struct ExJsonValue(serde_json::Value);

/// The tree that parsing a text as JSON yields, or `None` where the text is
/// not valid JSON.  The name stands for what `serde_json::from_str` decides;
/// parsing depends on the characters of the text alone.
pub uninterp spec fn json_tree_of(s: Seq<char>) -> Option<PlanValue>;

/// The text rendered for a tree value.  The name stands for what
/// serde_json's compact `Value` rendering prints; it depends on the value
/// alone.
pub uninterp spec fn json_text_of(v: PlanValue) -> Seq<char>;

/// Converts a `serde_json` value into the library's tree, variant by
/// variant; object entries keep the map's iteration order.
#[verifier::external_body]
fn tree_of_json(v: serde_json::Value) -> PlanValue {
    match v {
        serde_json::Value::Null => PlanValue::Null,
        serde_json::Value::Bool(b) => PlanValue::Bool(b),
        serde_json::Value::Number(n) => PlanValue::Num(n.to_string()),
        serde_json::Value::String(s) => PlanValue::Str(s),
        serde_json::Value::Array(a) => PlanValue::Arr(a.into_iter().map(tree_of_json).collect()),
        serde_json::Value::Object(o) => PlanValue::Obj(
            o.into_iter().map(|(k, x)| (k, tree_of_json(x))).collect(),
        ),
    }
}

/// Relies on `serde_json::from_str::<Value>`: parses the text as JSON and
/// hands the result over as the library's tree, or `None` where the text is
/// not valid JSON.
#[verifier::external_body]
fn parse_plan(s: &str) -> (r: Option<PlanValue>)
    ensures
        r == json_tree_of(s@),
{
    serde_json::from_str::<serde_json::Value>(s).ok().map(tree_of_json)
}

/// Converts the library's tree back into a `serde_json` value, variant by
/// variant.  A `Num` whose text is not a JSON number becomes `null`; trees
/// made by the decoder never hold one.
#[verifier::external_body]
fn json_of_tree(v: &PlanValue) -> serde_json::Value {
    match v {
        PlanValue::Null => serde_json::Value::Null,
        PlanValue::Bool(b) => serde_json::Value::Bool(*b),
        PlanValue::Num(n) => match n.parse() {
            Ok(x) => serde_json::Value::Number(x),
            Err(_) => serde_json::Value::Null,
        },
        PlanValue::Str(s) => serde_json::Value::String(s.clone()),
        PlanValue::Arr(a) => serde_json::Value::Array(a.iter().map(json_of_tree).collect()),
        PlanValue::Obj(o) => serde_json::Value::Object(
            o.iter().map(|(k, x)| (k.clone(), json_of_tree(x))).collect(),
        ),
    }
}

/// Relies on serde_json's compact `Value` rendering (`to_string`): renders
/// the tree value as JSON text, a string value with its surrounding quote
/// marks and escapes.
#[verifier::external_body]
pub(crate) fn render_value(v: &PlanValue) -> (r: String)
    ensures
        r@ == json_text_of(*v),
{
    json_of_tree(v).to_string()
}

/// `s` with every literal two-character sequence `\n` replaced, left to
/// right, by one newline character.
pub open spec fn unesc(s: Seq<char>) -> Seq<char>
    decreases s.len(),
{
    if s.len() == 0 {
        Seq::empty()
    } else if s.len() >= 2 && s[0] == '\\' && s[1] == 'n' {
        seq!['\n'] + unesc(s.skip(2))
    } else {
        seq![s[0]] + unesc(s.skip(1))
    }
}

/// Replaces every literal two-character `\n` sequence in `s` by a newline
/// character, reversing the escaping applied when the payload was embedded.
#[verifier::loop_isolation(false)]
pub fn escape(s: &String) -> (r: String)
    ensures
        r@ == unesc(s@),
{
    let cs = chars_of(s.as_str());
    let n = cs.len();
    let mut out: Vec<char> = Vec::new();
    let mut i: usize = 0;
    proof {
        assert(s@.skip(0) =~= s@);
        assert(out@ + unesc(s@) =~= unesc(s@));
    }
    while i < n
        invariant
            i <= n,
            unesc(s@) == out@ + unesc(s@.skip(i as int)),
        decreases n - i,
    {
        let ghost rest = s@.skip(i as int);
        proof {
            assert(rest[0] == s@[i as int]);
            if i + 1 < n {
                assert(rest[1] == s@[i + 1]);
            }
        }
        if cs[i] == '\\' && i + 1 < n && cs[i + 1] == 'n' {
            proof {
                assert(rest.skip(2) =~= s@.skip((i + 2) as int));
                assert(unesc(rest) == seq!['\n'] + unesc(s@.skip((i + 2) as int)));
                assert(out@.push('\n') + unesc(s@.skip((i + 2) as int)) =~= out@ + unesc(rest));
            }
            out.push('\n');
            i = i + 2;
        } else {
            let c = cs[i];
            proof {
                assert(rest.skip(1) =~= s@.skip((i + 1) as int));
                assert(unesc(rest) == seq![rest[0]] + unesc(s@.skip((i + 1) as int)));
                assert(out@.push(c) + unesc(s@.skip((i + 1) as int)) =~= out@ + unesc(rest));
            }
            out.push(c);
            i = i + 1;
        }
    }
    proof {
        assert(s@.skip(n as int) =~= Seq::<char>::empty());
        assert(unesc(Seq::<char>::empty()) =~= Seq::<char>::empty());
        assert(out@ + unesc(s@.skip(n as int)) =~= out@);
    }
    string_from_chars(&out)
}

/// The first character `unesc` emits is a newline or the first character of
/// its input.
proof fn lemma_unesc_head(s: Seq<char>)
    ensures
        s.len() > 0 ==> unesc(s).len() > 0 && (unesc(s)[0] == '\n' || unesc(s)[0] == s[0]),
{
    if s.len() > 0 {
        if s.len() >= 2 && s[0] == '\\' && s[1] == 'n' {
            assert(unesc(s) == seq!['\n'] + unesc(s.skip(2)));
        } else {
            assert(unesc(s) == seq![s[0]] + unesc(s.skip(1)));
        }
    }
}

/// Unescaping is idempotent: a second pass over an already-unescaped text
/// changes nothing.
pub proof fn lemma_unesc_idempotent(s: Seq<char>)
    ensures
        unesc(unesc(s)) == unesc(s),
    decreases s.len(),
{
    if s.len() == 0 {
        assert(unesc(s) =~= Seq::<char>::empty());
    } else if s.len() >= 2 && s[0] == '\\' && s[1] == 'n' {
        let u = unesc(s.skip(2));
        lemma_unesc_idempotent(s.skip(2));
        let t = seq!['\n'] + u;
        assert(unesc(s) == t);
        assert(t[0] == '\n');
        assert(t.skip(1) =~= u);
        assert(unesc(t) == seq![t[0]] + unesc(t.skip(1)));
        assert(unesc(t) =~= t);
    } else {
        let u = unesc(s.skip(1));
        lemma_unesc_idempotent(s.skip(1));
        let t = seq![s[0]] + u;
        assert(unesc(s) == t);
        assert(t[0] == s[0]);
        assert(t.skip(1) =~= u);
        if t.len() >= 2 && t[0] == '\\' && t[1] == 'n' {
            if s.len() == 1 {
                assert(s.skip(1) =~= Seq::<char>::empty());
                assert(u =~= Seq::<char>::empty());
                assert(false);
            } else {
                lemma_unesc_head(s.skip(1));
                assert(s.skip(1)[0] == s[1]);
                assert(s[1] != 'n');
                assert(t[1] == u[0]);
                assert(false);
            }
        }
        assert(unesc(t) == seq![t[0]] + unesc(t.skip(1)));
        assert(unesc(t) =~= t);
    }
}

/// A payload whose literal `\n` sequences are pre-converted to real
/// newlines decodes to the same tree as the payload itself.
pub proof fn lemma_pre_unescaped_decodes_same(p: Seq<char>)
    ensures
        json_tree_of(unesc(unesc(p))) == json_tree_of(unesc(p)),
{
    lemma_unesc_idempotent(p);
}

/// Unescapes the payload and parses the result as JSON into the plan tree;
/// a text that is not valid JSON after unescaping is `MalformedPlan`.
pub fn decode_plan(payload: &str) -> (r: Result<PlanValue, PlanError>)
    ensures
        match json_tree_of(unesc(payload@)) {
            Option::Some(t) => r == Ok::<PlanValue, PlanError>(t),
            Option::None => r == Err::<PlanValue, PlanError>(PlanError::MalformedPlan),
        },
{
    let owned = String::from_str(payload);
    let unescaped = escape(&owned);
    match parse_plan(unescaped.as_str()) {
        Option::Some(t) => Ok(t),
        Option::None => Err(PlanError::MalformedPlan),
    }
}

} // verus!
