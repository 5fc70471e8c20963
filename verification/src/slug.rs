//! Heading slugs: turning heading text into `id` values, and making them
//! unique within a document.
use unicode_general_category::get_general_category;
use vstd::prelude::*;

use crate::utf8text::{append_all, push_char};

verus! {

/// `char::is_alphanumeric`, by Unicode's tables.
pub uninterp spec fn is_alnum(c: char) -> bool;

/// `char::is_alphabetic`, by Unicode's tables.
pub uninterp spec fn is_alpha(c: char) -> bool;

/// `char::to_lowercase`, by Unicode's tables.
pub uninterp spec fn lowercase(c: char) -> Seq<char>;

/// `unicode_general_category::get_general_category`, by Unicode's tables, as
/// the discriminant of the returned `GeneralCategory`.
pub uninterp spec fn category_code(c: char) -> u8;

/// `char::is_alphanumeric`: whether `c` is alphabetic or numeric.
#[verifier::external_body]
fn char_is_alphanumeric(c: char) -> (r: bool)
    ensures
        r == is_alnum(c),
{
    c.is_alphanumeric()
}

/// `char::is_alphabetic`: whether `c` is alphabetic.
#[verifier::external_body]
fn char_is_alphabetic(c: char) -> (r: bool)
    ensures
        r == is_alpha(c),
{
    c.is_alphabetic()
}

/// `char::to_lowercase`: the lowercase mapping of `c`, one to three
/// characters.
#[verifier::external_body]
fn char_to_lowercase(c: char) -> (r: Vec<char>)
    ensures
        r@ == lowercase(c),
{
    c.to_lowercase().collect()
}

/// The Unicode general categories, in the order in which
/// `unicode_general_category` declares them.
#[derive(Clone, Copy, PartialEq, Eq, Structural, Debug)]
pub enum Category {
    ClosePunctuation,
    ConnectorPunctuation,
    Control,
    CurrencySymbol,
    DashPunctuation,
    DecimalNumber,
    EnclosingMark,
    FinalPunctuation,
    Format,
    InitialPunctuation,
    LetterNumber,
    LineSeparator,
    LowercaseLetter,
    MathSymbol,
    ModifierLetter,
    ModifierSymbol,
    NonspacingMark,
    OpenPunctuation,
    OtherLetter,
    OtherNumber,
    OtherPunctuation,
    OtherSymbol,
    ParagraphSeparator,
    PrivateUse,
    SpaceSeparator,
    SpacingMark,
    Surrogate,
    TitlecaseLetter,
    Unassigned,
    UppercaseLetter,
}

impl Category {
    /// The category at position `code` of the declaration order.
    pub open spec fn spec_from_code(code: u8) -> Category {
        if code == 0 {
            Category::ClosePunctuation
        } else if code == 1 {
            Category::ConnectorPunctuation
        } else if code == 2 {
            Category::Control
        } else if code == 3 {
            Category::CurrencySymbol
        } else if code == 4 {
            Category::DashPunctuation
        } else if code == 5 {
            Category::DecimalNumber
        } else if code == 6 {
            Category::EnclosingMark
        } else if code == 7 {
            Category::FinalPunctuation
        } else if code == 8 {
            Category::Format
        } else if code == 9 {
            Category::InitialPunctuation
        } else if code == 10 {
            Category::LetterNumber
        } else if code == 11 {
            Category::LineSeparator
        } else if code == 12 {
            Category::LowercaseLetter
        } else if code == 13 {
            Category::MathSymbol
        } else if code == 14 {
            Category::ModifierLetter
        } else if code == 15 {
            Category::ModifierSymbol
        } else if code == 16 {
            Category::NonspacingMark
        } else if code == 17 {
            Category::OpenPunctuation
        } else if code == 18 {
            Category::OtherLetter
        } else if code == 19 {
            Category::OtherNumber
        } else if code == 20 {
            Category::OtherPunctuation
        } else if code == 21 {
            Category::OtherSymbol
        } else if code == 22 {
            Category::ParagraphSeparator
        } else if code == 23 {
            Category::PrivateUse
        } else if code == 24 {
            Category::SpaceSeparator
        } else if code == 25 {
            Category::SpacingMark
        } else if code == 26 {
            Category::Surrogate
        } else if code == 27 {
            Category::TitlecaseLetter
        } else if code == 29 {
            Category::UppercaseLetter
        } else {
            Category::Unassigned
        }
    }

    /// The category at position `code` of the declaration order; codes
    /// past the last known category read as `Unassigned`.
    pub fn from_code(code: u8) -> (r: Category)
        ensures
            r == Category::spec_from_code(code),
    {
        if code == 0 {
            Category::ClosePunctuation
        } else if code == 1 {
            Category::ConnectorPunctuation
        } else if code == 2 {
            Category::Control
        } else if code == 3 {
            Category::CurrencySymbol
        } else if code == 4 {
            Category::DashPunctuation
        } else if code == 5 {
            Category::DecimalNumber
        } else if code == 6 {
            Category::EnclosingMark
        } else if code == 7 {
            Category::FinalPunctuation
        } else if code == 8 {
            Category::Format
        } else if code == 9 {
            Category::InitialPunctuation
        } else if code == 10 {
            Category::LetterNumber
        } else if code == 11 {
            Category::LineSeparator
        } else if code == 12 {
            Category::LowercaseLetter
        } else if code == 13 {
            Category::MathSymbol
        } else if code == 14 {
            Category::ModifierLetter
        } else if code == 15 {
            Category::ModifierSymbol
        } else if code == 16 {
            Category::NonspacingMark
        } else if code == 17 {
            Category::OpenPunctuation
        } else if code == 18 {
            Category::OtherLetter
        } else if code == 19 {
            Category::OtherNumber
        } else if code == 20 {
            Category::OtherPunctuation
        } else if code == 21 {
            Category::OtherSymbol
        } else if code == 22 {
            Category::ParagraphSeparator
        } else if code == 23 {
            Category::PrivateUse
        } else if code == 24 {
            Category::SpaceSeparator
        } else if code == 25 {
            Category::SpacingMark
        } else if code == 26 {
            Category::Surrogate
        } else if code == 27 {
            Category::TitlecaseLetter
        } else if code == 29 {
            Category::UppercaseLetter
        } else {
            Category::Unassigned
        }
    }
}

/// `unicode_general_category::get_general_category`, as the position of the
/// category in the declaration of `GeneralCategory` (a fieldless enum, so
/// its discriminants count up from 0 in declaration order).
#[verifier::external_body]
fn general_category_code(c: char) -> (r: u8)
    ensures
        r == category_code(c),
{
    get_general_category(c) as u8
}

/// Append the characters of `cs`.
fn append_chars(out: &mut String, cs: &Vec<char>)
    ensures
        final(out)@ == old(out)@ + cs@,
{
    let mut i: usize = 0;
    while i < cs.len()
        invariant
            i <= cs@.len(),
            out@ == old(out)@ + cs@.subrange(0, i as int),
        decreases cs@.len() - i,
    {
        push_char(out, cs[i]);
        proof {
            assert(cs@.subrange(0, i as int + 1) =~= cs@.subrange(0, i as int).push(cs@[i as int]));
        }
        i = i + 1;
    }
    proof {
        assert(cs@.subrange(0, cs@.len() as int) =~= cs@);
    }
}

/// The simple slug of `s` so far, and whether a separator is due before the
/// next word: each run of alphanumeric characters is lowercased, and runs
/// are joined by single hyphens.
pub open spec fn simple_scan(s: Seq<char>) -> (Seq<char>, bool)
    decreases s.len(),
{
    if s.len() == 0 {
        (Seq::empty(), false)
    } else {
        let (r, pending) = simple_scan(s.drop_last());
        let c = s.last();
        if is_alnum(c) {
            (r + (if pending && r.len() > 0 {
                seq!['-']
            } else {
                Seq::empty()
            }) + lowercase(c), false)
        } else {
            (r, true)
        }
    }
}

/// The simple slug of `s`.
pub open spec fn simple_slug(s: Seq<char>) -> Seq<char> {
    simple_scan(s).0
}

/// Convert every run of non-alphanumeric characters to a single hyphen.
pub fn simple_slugify_fn(s: &str) -> (r: String)
    ensures
        r@ == simple_slug(s@),
{
    let mut result = String::new();
    let mut pending = false;
    let n = vstd::string::StrSliceExecFns::unicode_len(s);
    let mut i: usize = 0;
    proof {
        assert(s@.subrange(0, 0) =~= Seq::<char>::empty());
    }
    while i < n
        invariant
            n == s@.len(),
            i <= n,
            (result@, pending) == simple_scan(s@.subrange(0, i as int)),
        decreases n - i,
    {
        let c = vstd::string::StrSliceExecFns::get_char(s, i);
        proof {
            let p = s@.subrange(0, i as int + 1);
            assert(p.drop_last() =~= s@.subrange(0, i as int));
            assert(p.last() == c);
        }
        if char_is_alphanumeric(c) {
            if pending && result.as_str().is_empty() == false {
                push_char(&mut result, '-');
            }
            let lower = char_to_lowercase(c);
            append_chars(&mut result, &lower);
            pending = false;
        } else {
            pending = true;
        }
        i = i + 1;
    }
    proof {
        assert(s@.subrange(0, n as int) =~= s@);
    }
    result
}

/// Whether `c` stays in a GitHub-style slug (other than as a hyphen).
pub open spec fn github_keeps(c: char) -> bool {
    c == '-' || is_alpha(c) || match Category::spec_from_code(category_code(c)) {
        Category::UppercaseLetter | Category::LowercaseLetter | Category::TitlecaseLetter
        | Category::ModifierLetter | Category::OtherLetter | Category::NonspacingMark
        | Category::SpacingMark | Category::EnclosingMark | Category::DecimalNumber
        | Category::LetterNumber | Category::ConnectorPunctuation => true,
        _ => false,
    }
}

/// The GitHub-style slug of `s`: spaces become hyphens, kept characters are
/// lowercased, everything else is dropped.
pub open spec fn github_slug(s: Seq<char>) -> Seq<char>
    decreases s.len(),
{
    if s.len() == 0 {
        Seq::empty()
    } else {
        let c = s.last();
        github_slug(s.drop_last()) + if c == ' ' {
            seq!['-']
        } else if github_keeps(c) {
            lowercase(c)
        } else {
            Seq::empty()
        }
    }
}

/// Decimal digits (general category `Nd`) are kept, lowercased, in a
/// GitHub-style slug: appending one to the heading text appends its
/// lowercase form to the slug.
pub proof fn lemma_github_slug_keeps_digits(s: Seq<char>, d: char)
    requires
        Category::spec_from_code(category_code(d)) == Category::DecimalNumber,
        d != ' ',
    ensures
        github_slug(s.push(d)) == github_slug(s) + lowercase(d),
{
    assert(s.push(d).drop_last() =~= s);
    assert(github_keeps(d));
}

/// Letters of every kind are kept, lowercased, in a GitHub-style slug.
pub proof fn lemma_github_slug_keeps_letters(s: Seq<char>, c: char)
    requires
        is_alpha(c) || c == '-',
        c != ' ',
    ensures
        github_slug(s.push(c)) == github_slug(s) + lowercase(c),
{
    assert(s.push(c).drop_last() =~= s);
}

/// Letters, marks, letter numbers and connector punctuation such as `_` are
/// kept, lowercased, in a GitHub-style slug.
pub proof fn lemma_github_slug_keeps_word_characters(s: Seq<char>, c: char)
    requires
        c != ' ',
        ({
            let g = Category::spec_from_code(category_code(c));
            ||| g == Category::UppercaseLetter
            ||| g == Category::LowercaseLetter
            ||| g == Category::TitlecaseLetter
            ||| g == Category::ModifierLetter
            ||| g == Category::OtherLetter
            ||| g == Category::NonspacingMark
            ||| g == Category::SpacingMark
            ||| g == Category::EnclosingMark
            ||| g == Category::LetterNumber
            ||| g == Category::ConnectorPunctuation
        }),
    ensures
        github_slug(s.push(c)) == github_slug(s) + lowercase(c),
{
    assert(s.push(c).drop_last() =~= s);
}

/// Other punctuation, symbols, other numbers, separators and control
/// characters are dropped from a GitHub-style slug, unless alphabetic or a
/// hyphen; a space is the exception that becomes a hyphen.
pub proof fn lemma_github_slug_drops_symbols(s: Seq<char>, c: char)
    requires
        c != ' ',
        c != '-',
        !is_alpha(c),
        ({
            let g = Category::spec_from_code(category_code(c));
            ||| g == Category::DashPunctuation
            ||| g == Category::OpenPunctuation
            ||| g == Category::ClosePunctuation
            ||| g == Category::InitialPunctuation
            ||| g == Category::FinalPunctuation
            ||| g == Category::OtherPunctuation
            ||| g == Category::MathSymbol
            ||| g == Category::CurrencySymbol
            ||| g == Category::ModifierSymbol
            ||| g == Category::OtherSymbol
            ||| g == Category::OtherNumber
            ||| g == Category::SpaceSeparator
            ||| g == Category::LineSeparator
            ||| g == Category::ParagraphSeparator
            ||| g == Category::Control
            ||| g == Category::Format
            ||| g == Category::Surrogate
            ||| g == Category::PrivateUse
            ||| g == Category::Unassigned
        }),
    ensures
        github_slug(s.push(c)) == github_slug(s),
{
    assert(s.push(c).drop_last() =~= s);
    assert(github_slug(s) + Seq::<char>::empty() =~= github_slug(s));
}

/// A space becomes a hyphen in a GitHub-style slug.
pub proof fn lemma_github_slug_space(s: Seq<char>)
    ensures
        github_slug(s.push(' ')) == github_slug(s) + seq!['-'],
{
    assert(s.push(' ').drop_last() =~= s);
}

/// Generate slugs using GitHub-style heading rules.
pub fn github_slugify_fn(s: &str) -> (r: String)
    ensures
        r@ == github_slug(s@),
{
    let mut result = String::new();
    let n = vstd::string::StrSliceExecFns::unicode_len(s);
    let mut i: usize = 0;
    proof {
        assert(s@.subrange(0, 0) =~= Seq::<char>::empty());
    }
    while i < n
        invariant
            n == s@.len(),
            i <= n,
            result@ == github_slug(s@.subrange(0, i as int)),
        decreases n - i,
    {
        let c = vstd::string::StrSliceExecFns::get_char(s, i);
        proof {
            let p = s@.subrange(0, i as int + 1);
            assert(p.drop_last() =~= s@.subrange(0, i as int));
            assert(p.last() == c);
        }
        if c == ' ' {
            push_char(&mut result, '-');
            proof {
                assert(result@ =~= github_slug(s@.subrange(0, i as int)) + seq!['-']);
            }
        } else {
            let keep = c == '-' || char_is_alphabetic(c) || match Category::from_code(general_category_code(c)) {
                Category::UppercaseLetter | Category::LowercaseLetter | Category::TitlecaseLetter
                | Category::ModifierLetter | Category::OtherLetter | Category::NonspacingMark
                | Category::SpacingMark | Category::EnclosingMark | Category::DecimalNumber
                | Category::LetterNumber | Category::ConnectorPunctuation => true,
                _ => false,
            };
            if keep {
                let lower = char_to_lowercase(c);
                append_chars(&mut result, &lower);
            } else {
                proof {
                    assert(result@ =~= github_slug(s@.subrange(0, i as int)) + Seq::<char>::empty());
                }
            }
        }
        i = i + 1;
    }
    proof {
        assert(s@.subrange(0, n as int) =~= s@);
    }
    result
}

/// The decimal digit for `d`.
pub open spec fn digit(d: int) -> char {
    if d == 0 {
        '0'
    } else if d == 1 {
        '1'
    } else if d == 2 {
        '2'
    } else if d == 3 {
        '3'
    } else if d == 4 {
        '4'
    } else if d == 5 {
        '5'
    } else if d == 6 {
        '6'
    } else if d == 7 {
        '7'
    } else if d == 8 {
        '8'
    } else {
        '9'
    }
}

/// The decimal representation of `n`.
pub open spec fn decimal(n: nat) -> Seq<char>
    decreases n,
{
    if n < 10 {
        seq![digit(n as int)]
    } else {
        decimal(n / 10).push(digit((n % 10) as int))
    }
}

proof fn lemma_digit_inj(a: int, b: int)
    requires
        0 <= a < 10,
        0 <= b < 10,
        digit(a) == digit(b),
    ensures
        a == b,
{
}

/// Distinct numbers have distinct decimal representations.
pub proof fn lemma_decimal_inj(a: nat, b: nat)
    requires
        decimal(a) == decimal(b),
    ensures
        a == b,
    decreases a,
{
    lemma_decimal_len(a);
    lemma_decimal_len(b);
    if a < 10 {
        assert(decimal(a).len() == 1);
        if b >= 10 {
            lemma_decimal_long(b);
        } else {
            assert(decimal(a) == seq![digit(a as int)]);
            assert(decimal(b) == seq![digit(b as int)]);
            assert(decimal(a)[0] == digit(a as int));
            assert(decimal(b)[0] == digit(b as int));
            lemma_digit_inj(a as int, b as int);
        }
    } else {
        lemma_decimal_long(a);
        if b < 10 {
            assert(decimal(b).len() == 1);
        }
        let da = decimal(a);
        let db = decimal(b);
        assert(da.drop_last() == decimal(a / 10));
        assert(db.drop_last() == decimal(b / 10));
        assert(da.last() == digit((a % 10) as int));
        assert(db.last() == digit((b % 10) as int));
        lemma_decimal_inj(a / 10, b / 10);
        lemma_digit_inj((a % 10) as int, (b % 10) as int);
    }
}

proof fn lemma_decimal_len(n: nat)
    ensures
        decimal(n).len() >= 1,
    decreases n,
{
    if n >= 10 {
        lemma_decimal_len(n / 10);
    }
}

proof fn lemma_decimal_long(n: nat)
    requires
        n >= 10,
    ensures
        decimal(n).len() >= 2,
{
    lemma_decimal_len(n / 10);
}

fn digit_char(d: usize) -> (c: char)
    requires
        d < 10,
    ensures
        c == digit(d as int),
{
    if d == 0 {
        '0'
    } else if d == 1 {
        '1'
    } else if d == 2 {
        '2'
    } else if d == 3 {
        '3'
    } else if d == 4 {
        '4'
    } else if d == 5 {
        '5'
    } else if d == 6 {
        '6'
    } else if d == 7 {
        '7'
    } else if d == 8 {
        '8'
    } else {
        '9'
    }
}

/// Append the decimal representation of `n`.
pub fn push_decimal(out: &mut String, n: usize)
    ensures
        final(out)@ == old(out)@ + decimal(n as nat),
    decreases n,
{
    if n >= 10 {
        push_decimal(out, n / 10);
    }
    push_char(out, digit_char(n % 10));
    proof {
        if n < 10 {
            assert(old(out)@.push(digit(n as int)) =~= old(out)@ + seq![digit(n as int)]);
        } else {
            assert(decimal(n as nat) == decimal((n / 10) as nat).push(digit((n % 10) as int)));
        }
    }
}

/// The `k`-th alternative to the slug `s`: `s-k`.
pub open spec fn suffixed(s: Seq<char>, k: nat) -> Seq<char> {
    s + seq!['-'] + decimal(k)
}

/// The character views of some strings.
pub open spec fn views(v: Seq<String>) -> Seq<Seq<char>> {
    v.map_values(|x: String| x@)
}

/// Whether `v` holds a string equal to `s`.
pub(crate) fn holds(v: &Vec<String>, s: &String) -> (r: bool)
    ensures
        r == views(v@).contains(s@),
{
    let mut i: usize = 0;
    while i < v.len()
        invariant
            i <= v@.len(),
            forall|j: int| 0 <= j < i ==> v@[j]@ != s@,
        decreases v@.len() - i,
    {
        if v[i] == *s {
            proof {
                assert(views(v@)[i as int] == s@);
            }
            return true;
        }
        i = i + 1;
    }
    proof {
        if views(v@).contains(s@) {
            let j = choose|j: int| 0 <= j < views(v@).len() && views(v@)[j] == s@;
            assert(v@[j]@ == s@);
        }
    }
    false
}

/// The next suffix recorded for `s`, if any (the latest entry for `s`
/// counts).
pub open spec fn suffix_for(next: Seq<(String, usize)>, s: Seq<char>) -> Option<usize>
    decreases next.len(),
{
    if next.len() == 0 {
        None
    } else if next.last().0@ == s {
        Some(next.last().1)
    } else {
        suffix_for(next.drop_last(), s)
    }
}

/// The suffix the search for `s` starts from: the recorded one, else 1.
pub open spec fn start_suffix(next: Seq<(String, usize)>, s: Seq<char>) -> nat {
    match suffix_for(next, s) {
        Some(k) => k as nat,
        None => 1,
    }
}

/// Rewriting an entry for another key, into one for another key again,
/// leaves the lookup of `t` alone.
proof fn lemma_suffix_for_update_other(next: Seq<(String, usize)>, i: int, e: (String, usize), t: Seq<char>)
    requires
        0 <= i < next.len(),
        next[i].0@ != t,
        e.0@ != t,
    ensures
        suffix_for(next.update(i, e), t) == suffix_for(next, t),
    decreases next.len(),
{
    let n = next.update(i, e);
    if i < next.len() - 1 {
        assert(n.drop_last() =~= next.drop_last().update(i, e));
        lemma_suffix_for_update_other(next.drop_last(), i, e, t);
    } else {
        assert(n.drop_last() =~= next.drop_last());
    }
}

/// Rewriting the latest entry for `s` changes what is recorded for `s`.
proof fn lemma_suffix_for_update_same(next: Seq<(String, usize)>, i: int, e: (String, usize), s: Seq<char>)
    requires
        0 <= i < next.len(),
        e.0@ == s,
        forall|j: int| i < j < next.len() ==> next[j].0@ != s,
    ensures
        suffix_for(next.update(i, e), s) == Some(e.1),
    decreases next.len(),
{
    let n = next.update(i, e);
    if i < next.len() - 1 {
        assert(n.drop_last() =~= next.drop_last().update(i, e));
        lemma_suffix_for_update_same(next.drop_last(), i, e, s);
    }
}

/// Find the position of the latest entry for `s`.
fn suffix_position(next: &Vec<(String, usize)>, s: &String) -> (r: Option<usize>)
    ensures
        r matches Some(i) ==> i < next@.len() && next@[i as int].0@ == s@ && suffix_for(next@, s@)
            == Some(next@[i as int].1) && forall|j: int| i < j < next@.len() ==> next@[j].0@ != s@,
        r is None ==> suffix_for(next@, s@) is None,
{
    let mut i = next.len();
    proof {
        assert(next@.subrange(0, i as int) =~= next@);
    }
    while i > 0
        invariant
            i <= next@.len(),
            suffix_for(next@, s@) == suffix_for(next@.subrange(0, i as int), s@),
            forall|j: int| i <= j < next@.len() ==> next@[j].0@ != s@,
        decreases i,
    {
        let ghost p = next@.subrange(0, i as int);
        proof {
            assert(p.drop_last() =~= next@.subrange(0, i as int - 1));
            assert(p.last() == next@[i as int - 1]);
        }
        if next[i - 1].0 == *s {
            return Some(i - 1);
        }
        i = i - 1;
    }
    proof {
        assert(next@.subrange(0, 0) =~= Seq::<(String, usize)>::empty());
    }
    None
}

/// The suffix a search for `s` would start from.
pub(crate) fn recorded_suffix(next: &Vec<(String, usize)>, s: &String) -> (r: usize)
    ensures
        r as nat == start_suffix(next@, s@),
{
    match suffix_position(next, s) {
        Some(i) => next[i].1,
        None => 1,
    }
}

/// `r` is `slug` made unique among `used`, and `next2` is what the table of
/// next suffixes `next` becomes: `slug` itself if unused (the table stays);
/// else `slug-k` for the first `k` from the recorded suffix on whose `slug-k`
/// is unused, with `k + 1` recorded for `slug` and every other entry kept.
pub open spec fn made_unique(
    used: Seq<Seq<char>>,
    next: Seq<(String, usize)>,
    next2: Seq<(String, usize)>,
    slug: Seq<char>,
    r: Seq<char>,
) -> bool {
    &&& !used.contains(r)
    &&& !used.contains(slug) ==> r == slug && next2 == next
    &&& used.contains(slug) ==> exists|k: nat|
        {
            &&& k >= start_suffix(next, slug)
            &&& #[trigger] suffixed(slug, k) == r
            &&& forall|j: nat| start_suffix(next, slug) <= j < k ==> used.contains(#[trigger] suffixed(slug, j))
            &&& suffix_for(next2, slug) == Some((k + 1) as usize)
        }
    &&& forall|t: Seq<char>| t != slug ==> #[trigger] suffix_for(next2, t) == suffix_for(next, t)
}

/// Make `slug` unique among `used_ids` and record it there: the slug itself
/// if unused, else the first unused `slug-k`, counting `k` up from the suffix
/// recorded for `slug` in `next_suffix` (from 1 the first time); the suffix
/// after the one taken is recorded for the next search.
#[verifier::rlimit(60)]
pub fn unique_slug(slug: String, used_ids: &mut Vec<String>, next_suffix: &mut Vec<(String, usize)>) -> (r: String)
    requires
        views(old(used_ids)@).contains(slug@) ==> start_suffix(old(next_suffix)@, slug@) + old(used_ids)@.len()
            < usize::MAX,
    ensures
        final(used_ids)@ == old(used_ids)@.push(r),
        made_unique(views(old(used_ids)@), old(next_suffix)@, final(next_suffix)@, slug@, r@),
{
    if !holds(used_ids, &slug) {
        let r = slug.clone();
        used_ids.push(slug);
        return r;
    }
    let pos = suffix_position(next_suffix, &slug);
    let mut suffix: usize = match pos {
        Some(i) => next_suffix[i].1,
        None => 1,
    };
    let ghost start = suffix;
    let ghost u = views(used_ids@).to_set();
    let ghost mut tried = Set::<Seq<char>>::empty();
    proof {
        vstd::seq_lib::seq_to_set_is_finite(views(used_ids@));
        views(used_ids@).lemma_cardinality_of_set();
        vstd::set_lib::lemma_len_subset(tried, u);
    }
    loop
        invariant
            start == start_suffix(old(next_suffix)@, slug@),
            start <= suffix,
            next_suffix@ == old(next_suffix)@,
            pos matches Some(i) ==> i < next_suffix@.len() && next_suffix@[i as int].0@ == slug@
                && forall|j: int| i < j < next_suffix@.len() ==> next_suffix@[j].0@ != slug@,
            pos is None ==> suffix_for(next_suffix@, slug@) is None,
            start + used_ids@.len() < usize::MAX,
            u == views(used_ids@).to_set(),
            u.finite(),
            used_ids@ == old(used_ids)@,
            views(used_ids@).contains(slug@),
            tried.finite(),
            tried.len() == suffix - start,
            tried.subset_of(u),
            forall|k: nat| start <= k < suffix ==> tried.contains(#[trigger] suffixed(slug@, k)),
            forall|x: Seq<char>| tried.contains(x) ==> exists|k: nat| start <= k < suffix && #[trigger] suffixed(slug@, k) == x,
        decreases u.len() - tried.len(),
    {
        proof {
            vstd::set_lib::lemma_len_subset(tried, u);
            views(used_ids@).lemma_cardinality_of_set();
            assert(u.len() <= views(used_ids@).len());
        }
        let mut candidate = slug.clone();
        push_char(&mut candidate, '-');
        push_decimal(&mut candidate, suffix);
        proof {
            assert(candidate@ =~= suffixed(slug@, suffix as nat));
        }
        if !holds(used_ids, &candidate) {
            let next = suffix + 1;
            let ghost before = next_suffix@;
            let entry = (slug.clone(), next);
            match pos {
                Some(i) => {
                    next_suffix.set(i, entry);
                    proof {
                        lemma_suffix_for_update_same(before, i as int, entry, slug@);
                        assert forall|t: Seq<char>| t != slug@ implies #[trigger] suffix_for(next_suffix@, t) == suffix_for(before, t) by {
                            lemma_suffix_for_update_other(before, i as int, entry, t);
                        }
                    }
                },
                None => {
                    next_suffix.push(entry);
                    proof {
                        assert(next_suffix@.drop_last() =~= before);
                    }
                },
            }
            proof {
                let k = suffix as nat;
                assert forall|j: nat| start <= j < k implies views(old(used_ids)@).contains(#[trigger] suffixed(slug@, j)) by {
                    assert(tried.contains(suffixed(slug@, j)));
                    assert(u.contains(suffixed(slug@, j)));
                }
                assert(suffixed(slug@, k) == candidate@);
            }
            let r = candidate.clone();
            used_ids.push(candidate);
            return r;
        }
        proof {
            assert(!tried.contains(candidate@)) by {
                if tried.contains(candidate@) {
                    let k = choose|k: nat| start <= k < suffix && #[trigger] suffixed(slug@, k) == candidate@;
                    let n = slug@.len() as int + 1;
                    assert(decimal(k) =~= suffixed(slug@, k).subrange(n, suffixed(slug@, k).len() as int));
                    assert(decimal(suffix as nat) =~= candidate@.subrange(n, candidate@.len() as int));
                    lemma_decimal_inj(k, suffix as nat);
                }
            }
            assert(u.contains(candidate@));
            tried = tried.insert(candidate@);
            assert(u.len() <= views(used_ids@).len());
            vstd::set_lib::lemma_len_subset(tried, u);
        }
        suffix = suffix + 1;
    }
}

} // verus!
