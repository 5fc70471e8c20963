//! Common textual replacements: `(c)` to `©`, `(r)` to `®`, `(tm)` to `™`
//! (in any case), `+-` to `±`, runs of dots to `…` (but `?..` and `!..`
//! after `?` and `!`), at most three `?` or `!` in a row, one comma for
//! several, and `--` / `---` to en and em dashes.
use std::borrow::Cow;
use vstd::prelude::*;

use crate::arena::NodeId;
use crate::document::{DocView, Document};
use crate::edit::{BatchView, EditBatch, ReplaceText, TextReplacement};
use crate::events::{steps_of, Step, StructuralEvent};
use crate::heading_anchors::step_node;
use crate::node::{Node, NodeValue, Text};
use crate::utf8text::{byte_len, chars_of, push_char, utf8};

verus! {

/// Whether the regular expression `pattern` matches somewhere in `input`;
/// `None` where `pattern` is not a valid expression.
pub uninterp spec fn regex_matches(pattern: Seq<char>, input: Seq<char>) -> Option<bool>;

/// `input` with every match of `pattern` replaced by `replacement` (where
/// `$name` and `$1` stand for capture groups); `Some(None)` where nothing
/// matches, `None` where `pattern` is not a valid expression.
pub uninterp spec fn regex_replaced(pattern: Seq<char>, input: Seq<char>, replacement: Seq<char>) -> Option<
    Option<Seq<char>>,
>;

/// `input` with every match of `pattern` replaced by what `abbreviation`
/// makes of the matched text; `Some(None)` where nothing matches, `None`
/// where `pattern` is not a valid expression.
pub uninterp spec fn regex_replaced_abbreviations(pattern: Seq<char>, input: Seq<char>) -> Option<
    Option<Seq<char>>,
>;

/// `regex::Regex::new(pattern)` and then `Regex::is_match(input)`: whether
/// the expression matches somewhere in `input`, or `None` where the pattern
/// does not compile. The result is named, a function of the two texts.
#[verifier::external_body]
fn regex_is_match(pattern: &str, input: &str) -> (r: Option<bool>)
    ensures
        r == regex_matches(pattern@, input@),
{
    match regex::Regex::new(pattern) {
        Ok(re) => Some(re.is_match(input)),
        Err(_) => None,
    }
}

/// `regex::Regex::new(pattern)` and then `Regex::replace_all(input,
/// replacement)`: the replaced text, `Some(None)` where the call hands back
/// `input` borrowed (nothing matched), or `None` where the pattern does not
/// compile. The result is named, a function of the three texts.
#[verifier::external_body]
fn regex_replace_all(pattern: &str, input: &str, replacement: &str) -> (r: Option<Option<String>>)
    ensures
        match r {
            None => regex_replaced(pattern@, input@, replacement@) is None,
            Some(None) => regex_replaced(pattern@, input@, replacement@) == Some(None::<Seq<char>>),
            Some(Some(s)) => regex_replaced(pattern@, input@, replacement@) == Some(Some(s@)),
        },
{
    match regex::Regex::new(pattern) {
        Ok(re) => match re.replace_all(input, replacement) {
            Cow::Borrowed(_) => Some(None),
            Cow::Owned(s) => Some(Some(s)),
        },
        Err(_) => None,
    }
}

/// `regex::Regex::new(pattern)` and then `Regex::replace_all(input, ..)`
/// with each match replaced by `abbreviation` of its text; as
/// `regex_replace_all` otherwise. The result is named, a function of the two
/// texts.
#[verifier::external_body]
fn regex_replace_all_abbreviations(pattern: &str, input: &str) -> (r: Option<Option<String>>)
    ensures
        match r {
            None => regex_replaced_abbreviations(pattern@, input@) is None,
            Some(None) => regex_replaced_abbreviations(pattern@, input@) == Some(None::<Seq<char>>),
            Some(Some(s)) => regex_replaced_abbreviations(pattern@, input@) == Some(Some(s@)),
        },
{
    match regex::Regex::new(pattern) {
        Ok(re) => match re.replace_all(input, |caps: &regex::Captures| abbreviation(&caps[0])) {
            Cow::Borrowed(_) => Some(None),
            Cow::Owned(s) => Some(Some(s)),
        },
        Err(_) => None,
    }
}

/// `c` in lower case, for ASCII letters.
pub open spec fn ascii_lower(c: char) -> char {
    if 'A' <= c <= 'Z' {
        (((c as u32) + 32) as u8) as char
    } else {
        c
    }
}

/// What a matched abbreviation stands for: `(c)`, `(r)` and `(tm)`, in any
/// case, become `©`, `®` and `™`; other text stays as it is.
pub open spec fn abbreviation_of(m: Seq<char>) -> Seq<char> {
    let l = m.map_values(|c: char| ascii_lower(c));
    if l == "(c)"@ {
        "©"@
    } else if l == "(r)"@ {
        "®"@
    } else if l == "(tm)"@ {
        "™"@
    } else {
        m
    }
}

/// Whether `s` holds the text `lit`.
fn text_is(s: &String, lit: &str) -> (r: bool)
    ensures
        r == (s@ == lit@),
{
    *s == lit.to_owned()
}

/// What the matched abbreviation `m` stands for.
pub fn abbreviation(m: &str) -> (r: String)
    ensures
        r@ == abbreviation_of(m@),
{
    let cs = chars_of(m);
    let mut lower = String::new();
    let mut i: usize = 0;
    while i < cs.len()
        invariant
            i <= cs@.len(),
            cs@ == m@,
            lower@ == cs@.take(i as int).map_values(|c: char| ascii_lower(c)),
        decreases cs@.len() - i,
    {
        let c = cs[i];
        let d = if 'A' <= c && c <= 'Z' {
            let b: u8 = ((c as u32) + 32) as u8;
            b as char
        } else {
            c
        };
        push_char(&mut lower, d);
        proof {
            assert(lower@ =~= cs@.take(i + 1).map_values(|c: char| ascii_lower(c)));
        }
        i = i + 1;
    }
    proof {
        assert(cs@.take(cs@.len() as int) =~= cs@);
    }
    if text_is(&lower, "(c)") {
        "©".to_owned()
    } else if text_is(&lower, "(r)") {
        "®".to_owned()
    } else if text_is(&lower, "(tm)") {
        "™".to_owned()
    } else {
        m.to_owned()
    }
}

/// The expression of the abbreviations.
pub open spec fn scoped_pattern() -> Seq<char> {
    "(?i)\\((c|tm|r)\\)"@
}

/// The expression of the rare sequences that the replacements look for.
pub open spec fn rare_pattern() -> Seq<char> {
    "\\+-|\\.\\.|\\?\\?\\?\\?|!!!!|,,|--"@
}

/// The number of replacement rules.
pub open spec fn rule_count() -> int {
    8
}

/// The expression of replacement rule `i`.
pub open spec fn rule_pattern(i: int) -> Seq<char> {
    if i == 0 {
        "\\+-"@
    } else if i == 1 {
        "\\.{2,}"@
    } else if i == 2 {
        "([?!])…"@
    } else if i == 3 {
        "([?!]){4,}"@
    } else if i == 4 {
        ",{2,}"@
    } else if i == 5 {
        "(?m)(?P<pre>^|[^-])(?P<dash>---)(?P<post>[^-]|$)"@
    } else if i == 6 {
        "(?m)(?P<pre>^|\\s)(?P<dash>--)(?P<post>\\s|$)"@
    } else {
        "(?m)(?P<pre>^|[^-\\s])(?P<dash>--)(?P<post>[^-\\s]|$)"@
    }
}

/// The replacement of rule `i`.
pub open spec fn rule_replacement(i: int) -> Seq<char> {
    if i == 0 {
        "±"@
    } else if i == 1 {
        "…"@
    } else if i == 2 {
        "$1.."@
    } else if i == 3 {
        "$1$1$1"@
    } else if i == 4 {
        ","@
    } else if i == 5 {
        "$pre\u{2014}$post"@
    } else {
        "$pre\u{2013}$post"@
    }
}

/// Replacement rule `i`: its expression and replacement.
fn rule(i: usize) -> (r: (&'static str, &'static str))
    requires
        i < 8,
    ensures
        r.0@ == rule_pattern(i as int),
        r.1@ == rule_replacement(i as int),
{
    if i == 0 {
        ("\\+-", "±")
    } else if i == 1 {
        ("\\.{2,}", "…")
    } else if i == 2 {
        ("([?!])…", "$1..")
    } else if i == 3 {
        ("([?!]){4,}", "$1$1$1")
    } else if i == 4 {
        (",{2,}", ",")
    } else if i == 5 {
        ("(?m)(?P<pre>^|[^-])(?P<dash>---)(?P<post>[^-]|$)", "$pre\u{2014}$post")
    } else if i == 6 {
        ("(?m)(?P<pre>^|\\s)(?P<dash>--)(?P<post>\\s|$)", "$pre\u{2013}$post")
    } else {
        ("(?m)(?P<pre>^|[^-\\s])(?P<dash>--)(?P<post>[^-\\s]|$)", "$pre\u{2013}$post")
    }
}

/// The rules from `i` on applied to `cur`, `changed` telling whether an
/// earlier step already changed the text: a rule that matches replaces its
/// matches, and then once more in the result (dash rules take the text
/// around them, so adjacent matches can overlap).
pub open spec fn rules_from(cur: Seq<char>, changed: bool, i: int) -> (Seq<char>, bool)
    decreases rule_count() - i,
{
    if i < 0 || i >= rule_count() {
        (cur, changed)
    } else {
        match regex_replaced(rule_pattern(i), cur, rule_replacement(i)) {
            Some(Some(s)) => {
                let s2 = match regex_replaced(rule_pattern(i), s, rule_replacement(i)) {
                    Some(Some(t)) => t,
                    _ => s,
                };
                rules_from(s2, true, i + 1)
            },
            _ => rules_from(cur, changed, i + 1),
        }
    }
}

/// The typographer's text for `input`, or `None` where it leaves the text
/// alone. The abbreviations are replaced first where their expression
/// matches; then, where the expression of rare sequences matches, each
/// replacement in turn. A step whose expression is not valid changes nothing.
pub open spec fn typographer_spec(input: Seq<char>) -> Option<Seq<char>> {
    let first: (Seq<char>, bool) = if regex_matches(scoped_pattern(), input) == Some(true) {
        match regex_replaced_abbreviations(scoped_pattern(), input) {
            Some(Some(t)) => (t, true),
            Some(None) => (input, true),
            None => (input, false),
        }
    } else {
        (input, false)
    };
    let second = if regex_matches(rare_pattern(), first.0) == Some(true) {
        rules_from(first.0, first.1, 0)
    } else {
        first
    };
    if second.1 {
        Some(second.0)
    } else {
        None
    }
}

/// Whether replacement rule `i` changes `t`.
pub open spec fn rule_changes(i: int, t: Seq<char>) -> bool {
    regex_replaced(rule_pattern(i), t, rule_replacement(i)) matches Some(Some(_))
}

/// Where the replacement rules before `k` leave `cur` alone, the pass from
/// the first rule is the pass from rule `k`.
proof fn lemma_rules_skip(cur: Seq<char>, changed: bool, k: int)
    requires
        0 <= k <= rule_count(),
        forall|i: int| 0 <= i < k ==> !#[trigger] rule_changes(i, cur),
    ensures
        rules_from(cur, changed, 0) == rules_from(cur, changed, k),
    decreases k,
{
    if k > 0 {
        lemma_rules_skip(cur, changed, k - 1);
        assert(!rule_changes(k - 1, cur));
    }
}

/// Where no rule after `k` changes `cur`, the pass from rule `k + 1` leaves
/// it as it is.
proof fn lemma_rules_rest(cur: Seq<char>, changed: bool, k: int)
    requires
        0 <= k <= rule_count(),
        forall|i: int| k <= i < rule_count() ==> !#[trigger] rule_changes(i, cur),
    ensures
        rules_from(cur, changed, k) == (cur, changed),
    decreases rule_count() - k,
{
    if k < rule_count() {
        assert(!rule_changes(k, cur));
        lemma_rules_rest(cur, changed, k + 1);
    }
}

/// When the one replacement that applies to a text (without abbreviations,
/// holding one of the rare sequences) is rule `k`, and applying it once more
/// changes nothing, the typographer's text is that replacement.
proof fn lemma_single_rule(input: Seq<char>, k: int, out: Seq<char>)
    requires
        0 <= k < rule_count(),
        regex_matches(scoped_pattern(), input) != Some(true),
        regex_matches(rare_pattern(), input) == Some(true),
        forall|i: int| 0 <= i < k ==> !#[trigger] rule_changes(i, input),
        regex_replaced(rule_pattern(k), input, rule_replacement(k)) == Some(Some(out)),
        !rule_changes(k, out),
        forall|i: int| k < i < rule_count() ==> !#[trigger] rule_changes(i, out),
    ensures
        typographer_spec(input) == Some(out),
{
    lemma_rules_skip(input, false, k);
    lemma_rules_rest(out, true, k + 1);
}

/// When rule `k` is the only rule that changes a text (without
/// abbreviations, holding a rare sequence), and applying it a second time
/// changes its result again, the typographer's text is that second result.
proof fn lemma_rule_twice(input: Seq<char>, k: int, once: Seq<char>, out: Seq<char>)
    requires
        0 <= k < rule_count(),
        regex_matches(scoped_pattern(), input) != Some(true),
        regex_matches(rare_pattern(), input) == Some(true),
        forall|i: int| 0 <= i < k ==> !#[trigger] rule_changes(i, input),
        regex_replaced(rule_pattern(k), input, rule_replacement(k)) == Some(Some(once)),
        regex_replaced(rule_pattern(k), once, rule_replacement(k)) == Some(Some(out)),
        forall|i: int| k < i < rule_count() ==> !#[trigger] rule_changes(i, out),
    ensures
        typographer_spec(input) == Some(out),
{
    lemma_rules_skip(input, false, k);
    lemma_rules_rest(out, true, k + 1);
}

/// Dash rules take the characters around a dash, so adjacent double hyphens
/// between words are replaced in two passes: where the first pass of the
/// rule leaves a match behind, the second replaces it too.
pub proof fn lemma_en_dash_overlapping(input: Seq<char>, once: Seq<char>, out: Seq<char>)
    requires
        regex_matches(scoped_pattern(), input) != Some(true),
        regex_matches(rare_pattern(), input) == Some(true),
        forall|i: int| 0 <= i < 7 ==> !#[trigger] rule_changes(i, input),
        regex_replaced("(?m)(?P<pre>^|[^-\\s])(?P<dash>--)(?P<post>[^-\\s]|$)"@, input, "$pre\u{2013}$post"@)
            == Some(Some(once)),
        regex_replaced("(?m)(?P<pre>^|[^-\\s])(?P<dash>--)(?P<post>[^-\\s]|$)"@, once, "$pre\u{2013}$post"@)
            == Some(Some(out)),
    ensures
        typographer_spec(input) == Some(out),
{
    lemma_rule_twice(input, 7, once, out);
}

/// The abbreviations `(c)`, `(r)` and `(tm)` are replaced first; where the
/// result holds no rare sequence, that is the typographer's text.
pub proof fn lemma_abbreviations_only(input: Seq<char>, out: Seq<char>)
    requires
        regex_matches(scoped_pattern(), input) == Some(true),
        regex_replaced_abbreviations(scoped_pattern(), input) == Some(Some(out)),
        regex_matches(rare_pattern(), out) != Some(true),
    ensures
        typographer_spec(input) == Some(out),
{
}

/// What an abbreviation stands for does not depend on the case of its
/// letters: `(C)` is `(c)`, `(Tm)` is `(tm)`.
pub proof fn lemma_abbreviation_symbols(m: Seq<char>)
    ensures
        m.map_values(|c: char| ascii_lower(c)) == "(c)"@ ==> abbreviation_of(m) == "©"@,
        m.map_values(|c: char| ascii_lower(c)) == "(r)"@ ==> abbreviation_of(m) == "®"@,
        m.map_values(|c: char| ascii_lower(c)) == "(tm)"@ ==> abbreviation_of(m) == "™"@,
{
    reveal_strlit("(c)");
    reveal_strlit("(r)");
    reveal_strlit("(tm)");
    assert("(r)"@[1] != "(c)"@[1]);
    assert("(tm)"@.len() != "(c)"@.len());
    assert("(tm)"@.len() != "(r)"@.len());
}

/// A double hyphen between two characters that are neither blank nor a
/// hyphen becomes an en dash: where that rule is the one that changes a text
/// with no abbreviations, the typographer gives its replacement.
pub proof fn lemma_en_dash_between_words(input: Seq<char>, out: Seq<char>)
    requires
        regex_matches(scoped_pattern(), input) != Some(true),
        regex_matches(rare_pattern(), input) == Some(true),
        forall|i: int| 0 <= i < 7 ==> !#[trigger] rule_changes(i, input),
        regex_replaced("(?m)(?P<pre>^|[^-\\s])(?P<dash>--)(?P<post>[^-\\s]|$)"@, input, "$pre\u{2013}$post"@)
            == Some(Some(out)),
        !(regex_replaced("(?m)(?P<pre>^|[^-\\s])(?P<dash>--)(?P<post>[^-\\s]|$)"@, out, "$pre\u{2013}$post"@)
            matches Some(Some(_))),
    ensures
        typographer_spec(input) == Some(out),
{
    lemma_single_rule(input, 7, out);
}

/// A double hyphen with a blank (or the line's edge) on each side becomes an
/// en dash.
pub proof fn lemma_en_dash_between_blanks(input: Seq<char>, out: Seq<char>)
    requires
        regex_matches(scoped_pattern(), input) != Some(true),
        regex_matches(rare_pattern(), input) == Some(true),
        forall|i: int| 0 <= i < 6 ==> !#[trigger] rule_changes(i, input),
        regex_replaced("(?m)(?P<pre>^|\\s)(?P<dash>--)(?P<post>\\s|$)"@, input, "$pre\u{2013}$post"@) == Some(
            Some(out),
        ),
        !(regex_replaced("(?m)(?P<pre>^|\\s)(?P<dash>--)(?P<post>\\s|$)"@, out, "$pre\u{2013}$post"@) matches Some(
            Some(_),
        )),
        !rule_changes(7, out),
    ensures
        typographer_spec(input) == Some(out),
{
    lemma_single_rule(input, 6, out);
}

/// A triple hyphen not next to another hyphen becomes an em dash.
pub proof fn lemma_em_dash(input: Seq<char>, out: Seq<char>)
    requires
        regex_matches(scoped_pattern(), input) != Some(true),
        regex_matches(rare_pattern(), input) == Some(true),
        forall|i: int| 0 <= i < 5 ==> !#[trigger] rule_changes(i, input),
        regex_replaced("(?m)(?P<pre>^|[^-])(?P<dash>---)(?P<post>[^-]|$)"@, input, "$pre\u{2014}$post"@) == Some(
            Some(out),
        ),
        !(regex_replaced("(?m)(?P<pre>^|[^-])(?P<dash>---)(?P<post>[^-]|$)"@, out, "$pre\u{2014}$post"@) matches Some(
            Some(_),
        )),
        !rule_changes(6, out),
        !rule_changes(7, out),
    ensures
        typographer_spec(input) == Some(out),
{
    lemma_single_rule(input, 5, out);
}

/// `+-` becomes `±`.
pub proof fn lemma_plus_minus(input: Seq<char>, out: Seq<char>)
    requires
        regex_matches(scoped_pattern(), input) != Some(true),
        regex_matches(rare_pattern(), input) == Some(true),
        regex_replaced("\\+-"@, input, "±"@) == Some(Some(out)),
        !(regex_replaced("\\+-"@, out, "±"@) matches Some(Some(_))),
        forall|i: int| 0 < i < 8 ==> !#[trigger] rule_changes(i, out),
    ensures
        typographer_spec(input) == Some(out),
{
    lemma_single_rule(input, 0, out);
}

/// A text with neither an abbreviation nor a rare sequence is left alone.
pub proof fn lemma_plain_text_untouched(input: Seq<char>)
    requires
        regex_matches(scoped_pattern(), input) != Some(true),
        regex_matches(rare_pattern(), input) != Some(true),
    ensures
        typographer_spec(input) is None,
{
}

/// The typographer's text for `input`, or `None` where it leaves the text
/// alone.
pub fn typographer_replace(input: &str) -> (r: Option<String>)
    ensures
        match r {
            Some(s) => typographer_spec(input@) == Some(s@),
            None => typographer_spec(input@) is None,
        },
{
    let scoped = "(?i)\\((c|tm|r)\\)";
    let mut cur: String = input.to_owned();
    let mut changed = false;
    if regex_is_match(scoped, input) == Some(true) {
        match regex_replace_all_abbreviations(scoped, input) {
            Some(Some(t)) => {
                cur = t;
                changed = true;
            },
            Some(None) => {
                changed = true;
            },
            None => {},
        }
    }
    let ghost first = (cur@, changed);
    if regex_is_match("\\+-|\\.\\.|\\?\\?\\?\\?|!!!!|,,|--", cur.as_str()) == Some(true) {
        let mut i: usize = 0;
        while i < 8
            invariant
                i <= 8,
                rules_from(first.0, first.1, 0) == rules_from(cur@, changed, i as int),
            decreases 8 - i,
        {
            let (pattern, replacement) = rule(i);
            match regex_replace_all(pattern, cur.as_str(), replacement) {
                Some(Some(s)) => {
                    let again = regex_replace_all(pattern, s.as_str(), replacement);
                    cur = match again {
                        Some(Some(t)) => t,
                        _ => s,
                    };
                    changed = true;
                },
                _ => {},
            }
            i = i + 1;
        }
    }
    if changed {
        Some(cur)
    } else {
        None
    }
}

/// The text rewrites the typographer makes on the walk `steps` of `v`: for
/// each `Text` node entered or visited, in order, whose text it changes, the
/// node, the byte length of its text and the new text.
pub open spec fn typographer_plan(v: DocView, steps: Seq<Step>) -> Seq<(NodeId, nat, Seq<char>)>
    decreases steps.len(),
{
    if steps.len() == 0 {
        Seq::empty()
    } else {
        let p = typographer_plan(v, steps.drop_last());
        let st = steps.last();
        let n = v.nodes[step_node(st)];
        match n.node_value {
            NodeValue::Text(t) => if !(st is Exit) && typographer_spec(t.content@) is Some {
                p.push((step_node(st), utf8(t.content@).len(), typographer_spec(t.content@)->0))
            } else {
                p
            },
            _ => p,
        }
    }
}

/// Whether `e` replaces the whole text of the node as `x` says.
pub open spec fn rewrites(e: ReplaceText, x: (NodeId, nat, Seq<char>)) -> bool {
    &&& e.node == x.0
    &&& e.start == 0
    &&& e.end == x.1
    &&& e.replacement matches TextReplacement::String(s) && s@ == x.2
}

/// Typographer replacements on an arena-backed document.
pub struct TypographerDocumentTransform;

impl TypographerDocumentTransform {
    /// The edits that give each `Text` node of the document, in preorder,
    /// the typographer's text, where that differs: one edit per such node,
    /// replacing all of its text, and no other edits.
    pub fn run(document: &Document) -> (r: EditBatch)
        requires
            document.wf(),
        ensures
            ({
                let plan = typographer_plan(document@, steps_of(document@, document@.root));
                &&& r@.attrs.len() == 0
                &&& r@.srcmaps.len() == 0
                &&& r@.removals.len() == 0
                &&& r@.insertions.len() == 0
                &&& r@.replacements.len() == 0
                &&& r@.wraps.len() == 0
                &&& r@.text.len() == plan.len()
                &&& forall|i: int| 0 <= i < plan.len() ==> rewrites(#[trigger] r@.text[i], plan[i])
            }),
    {
        let ghost v = document@;
        let mut edits = EditBatch::new();
        let mut events = match document.events(document.root()) {
            Ok(ev) => ev,
            Err(_) => {
                proof {
                    document.lemma_tree();
                    assert(document@.nodes.dom().contains(document@.root));
                }
                return edits;
            },
        };
        let ghost all = events.remaining();
        let ghost mut done: Seq<Step> = Seq::empty();
        proof {
            assert(all =~= done + events.remaining());
        }
        loop
            invariant
                events.inv(),
                events.doc() == v,
                v == document@,
                all == steps_of(v, v.root),
                all == done + events.remaining(),
                edits@.attrs.len() == 0,
                edits@.srcmaps.len() == 0,
                edits@.removals.len() == 0,
                edits@.insertions.len() == 0,
                edits@.replacements.len() == 0,
                edits@.wraps.len() == 0,
                edits@.text.len() == typographer_plan(v, done).len(),
                forall|i: int|
                    0 <= i < edits@.text.len() ==> rewrites(#[trigger] edits@.text[i], typographer_plan(v, done)[i]),
            ensures
                all == done,
            decreases events.remaining().len(),
        {
            let ghost seen = done;
            let next = events.next();
            let e = match next {
                None => {
                    proof {
                        assert(all =~= done);
                    }
                    break;
                },
                Some(e) => e,
            };
            proof {
                done = done.push(e.step());
                assert(all =~= done + events.remaining());
                assert(done.drop_last() =~= seen);
                assert(step_node(e.step()) == e.spec_node().id);
            }
            let node = e.node();
            let exit = match e {
                StructuralEvent::Exit(_) => true,
                _ => false,
            };
            let ghost before = edits@;
            if !exit {
                match &node.node_value {
                    NodeValue::Text(t) => {
                        match typographer_replace(t.content.as_str()) {
                            Some(replacement) => {
                                let len = byte_len(t.content.as_str());
                                edits.replace_text(node.id, 0..len, replacement.as_str());
                                proof {
                                    assert forall|i: int| 0 <= i < edits@.text.len() implies rewrites(
                                        #[trigger] edits@.text[i],
                                        typographer_plan(v, done)[i],
                                    ) by {
                                        if i < before.text.len() {
                                            assert(edits@.text[i] == edits@.text.drop_last()[i]);
                                        }
                                    }
                                }
                            },
                            None => {},
                        }
                    },
                    _ => {},
                }
            }
        }
        edits
    }
}

/// `b` is `a` with the typographer's text in every `Text` node that it
/// changes, and nothing else different.
pub open spec fn typographed(a: Node, b: Node) -> bool
    decreases a,
{
    &&& match a.node_value {
        NodeValue::Text(t) => match typographer_spec(t.content@) {
            Some(s) => b.node_value matches NodeValue::Text(u) && u.content@ == s,
            None => b.node_value == a.node_value,
        },
        _ => b.node_value == a.node_value,
    }
    &&& b.srcmap == a.srcmap
    &&& b.attrs@ == a.attrs@
    &&& b.children@.len() == a.children@.len()
    &&& forall|i: int| #![trigger a.children@[i]] 0 <= i < a.children@.len() ==> typographed(a.children@[i], b.children@[i])
}

/// Typographer replacements on an owned syntax tree.
pub struct TypographerRule;

impl TypographerRule {
    /// Give every `Text` node of the tree at `root` the typographer's text,
    /// where that differs.
    pub fn run(root: &mut Node)
        ensures
            typographed(*old(root), *final(root)),
        decreases *old(root),
    {
        let replacement = match &root.node_value {
            NodeValue::Text(t) => typographer_replace(t.content.as_str()),
            _ => None,
        };
        match replacement {
            Some(s) => {
                root.node_value = NodeValue::Text(Text { content: s });
            },
            None => {},
        }
        let mut kids: Vec<Node> = Vec::new();
        std::mem::swap(&mut kids, &mut root.children);
        let ghost before = kids@;
        let mut rest: Vec<Node> = Vec::new();
        proof {
            assert(kids@ =~= before.subrange(0, kids@.len() as int));
            assert(rest@ =~= before.subrange(kids@.len() as int, before.len() as int).reverse());
        }
        while kids.len() > 0
            invariant
                kids@ == before.subrange(0, kids@.len() as int),
                kids@.len() <= before.len(),
                rest@ == before.subrange(kids@.len() as int, before.len() as int).reverse(),
            decreases kids@.len(),
        {
            let ghost k = kids@.len() as int;
            let x = kids.pop().unwrap();
            rest.push(x);
            proof {
                assert(kids@ =~= before.subrange(0, k - 1));
                assert(rest@ =~= before.subrange(k - 1, before.len() as int).reverse());
            }
        }
        let mut done: Vec<Node> = Vec::new();
        while rest.len() > 0
            invariant
                done@.len() + rest@.len() == before.len(),
                rest@ == before.subrange(done@.len() as int, before.len() as int).reverse(),
                forall|j: int| 0 <= j < done@.len() ==> typographed(#[trigger] before[j], done@[j]),
                before == old(root).children@,
            decreases rest@.len(),
        {
            let ghost k = done@.len() as int;
            let mut child = rest.pop().unwrap();
            proof {
                assert(child == before[k]);
                assert(rest@ =~= before.subrange(k + 1, before.len() as int).reverse());
            }
            TypographerRule::run(&mut child);
            done.push(child);
        }
        root.children = done;
        proof {
            assert forall|i: int| 0 <= i < old(root).children@.len() implies typographed(
                #[trigger] old(root).children@[i],
                root.children@[i],
            ) by {
                assert(before[i] == old(root).children@[i]);
            }
        }
    }
}

} // verus!
