//! Text as the game handles it: identifiers compared and ordered character by
//! character, and the few Unicode services borrowed from the standard library.

use vstd::prelude::*;

verus! {

/// Strict lexicographic order on character sequences.
///
/// This is the order of `String`'s `Ord`: UTF-8 keeps code points in order,
/// so comparing bytes and comparing characters agree.
pub open spec fn lex_lt(a: Seq<char>, b: Seq<char>) -> bool
    decreases a.len(),
{
    if b.len() == 0 {
        false
    } else if a.len() == 0 {
        true
    } else if a[0] != b[0] {
        (a[0] as int) < (b[0] as int)
    } else {
        lex_lt(a.drop_first(), b.drop_first())
    }
}

/// No sequence comes before itself.
pub proof fn lemma_lex_irreflexive(a: Seq<char>)
    ensures
        !lex_lt(a, a),
    decreases a.len(),
{
    if a.len() > 0 {
        lemma_lex_irreflexive(a.drop_first());
    }
}

/// The order is transitive.
pub proof fn lemma_lex_transitive(a: Seq<char>, b: Seq<char>, c: Seq<char>)
    requires
        lex_lt(a, b),
        lex_lt(b, c),
    ensures
        lex_lt(a, c),
    decreases a.len(),
{
    if a.len() > 0 && b.len() > 0 && c.len() > 0 {
        if a[0] == b[0] && b[0] == c[0] {
            lemma_lex_transitive(a.drop_first(), b.drop_first(), c.drop_first());
        }
    }
}

/// Two different sequences are always ordered one way or the other.
pub proof fn lemma_lex_total(a: Seq<char>, b: Seq<char>)
    ensures
        a == b || lex_lt(a, b) || lex_lt(b, a),
    decreases a.len(),
{
    if a.len() > 0 && b.len() > 0 && a[0] == b[0] {
        lemma_lex_total(a.drop_first(), b.drop_first());
        if a.drop_first() == b.drop_first() {
            assert(a =~= seq![a[0]] + a.drop_first());
            assert(b =~= seq![b[0]] + b.drop_first());
        }
    } else if a.len() == 0 && b.len() == 0 {
        assert(a =~= b);
    } else if a.len() > 0 && b.len() > 0 {
        assert((a[0] as int) != (b[0] as int));
    }
}

/// The order never holds both ways.
pub proof fn lemma_lex_asymmetric(a: Seq<char>, b: Seq<char>)
    requires
        lex_lt(a, b),
    ensures
        !lex_lt(b, a),
{
    if lex_lt(b, a) {
        lemma_lex_transitive(a, b, a);
        lemma_lex_irreflexive(a);
    }
}

/// Skipping a common prefix does not change the order.
proof fn lemma_lex_skip(a: Seq<char>, b: Seq<char>, i: int)
    requires
        0 <= i <= a.len(),
        i <= b.len(),
        forall|j: int| 0 <= j < i ==> a[j] == b[j],
    ensures
        lex_lt(a, b) == lex_lt(a.skip(i), b.skip(i)),
    decreases i,
{
    if i > 0 {
        lemma_lex_skip(a.drop_first(), b.drop_first(), i - 1);
        assert(a.drop_first().skip(i - 1) =~= a.skip(i));
        assert(b.drop_first().skip(i - 1) =~= b.skip(i));
    } else {
        assert(a.skip(0) =~= a);
        assert(b.skip(0) =~= b);
    }
}

/// Where one text stands against another.
#[derive(Debug, Clone, Copy, PartialEq, Eq)]
pub enum TextOrder {
    Before,
    Same,
    After,
}

/// Compares two texts in the order of `lex_lt`.
pub fn compare_text(a: &str, b: &str) -> (order: TextOrder)
    ensures
        order == TextOrder::Before <==> lex_lt(a@, b@),
        order == TextOrder::Same <==> a@ == b@,
        order == TextOrder::After <==> lex_lt(b@, a@),
{
    let la = a.unicode_len();
    let lb = b.unicode_len();
    let mut i: usize = 0;
    while i < la && i < lb
        invariant
            la == a@.len(),
            lb == b@.len(),
            i <= la,
            i <= lb,
            forall|j: int| 0 <= j < i ==> a@[j] == b@[j],
        decreases la - i,
    {
        let ca = a.get_char(i);
        let cb = b.get_char(i);
        if ca != cb {
            proof {
                lemma_lex_skip(a@, b@, i as int);
                lemma_lex_skip(b@, a@, i as int);
                assert(a@.skip(i as int)[0] == ca);
                assert(b@.skip(i as int)[0] == cb);
                assert(a@ != b@) by {
                    assert(a@[i as int] != b@[i as int]);
                }
            }
            if (ca as u32) < (cb as u32) {
                return TextOrder::Before;
            } else {
                return TextOrder::After;
            }
        }
        i = i + 1;
    }
    proof {
        lemma_lex_skip(a@, b@, i as int);
        lemma_lex_skip(b@, a@, i as int);
    }
    if la == lb {
        assert(a@ =~= b@);
        proof {
            lemma_lex_irreflexive(a@);
        }
        TextOrder::Same
    } else if la < lb {
        assert(a@.skip(i as int).len() == 0);
        assert(a@ != b@);
        TextOrder::Before
    } else {
        assert(b@.skip(i as int).len() == 0);
        assert(a@ != b@);
        TextOrder::After
    }
}

/// Do two texts hold the same characters?
pub fn same_text(a: &str, b: &str) -> (same: bool)
    ensures
        same == (a@ == b@),
{
    match compare_text(a, b) {
        TextOrder::Same => true,
        _ => false,
    }
}

/// A character that `char::is_whitespace` recognises: those with Unicode's
/// `White_Space` property. Tabulation to carriage return, space, next line,
/// no-break space, Ogham space mark, the spaces from en quad to hair space,
/// the line and paragraph separators, narrow no-break space, medium
/// mathematical space and ideographic space.
pub open spec fn is_white_space(c: char) -> bool {
    let n = c as int;
    ||| 0x9 <= n <= 0xD
    ||| n == 0x20
    ||| n == 0x85
    ||| n == 0xA0
    ||| n == 0x1680
    ||| 0x2000 <= n <= 0x200A
    ||| n == 0x2028
    ||| n == 0x2029
    ||| n == 0x202F
    ||| n == 0x205F
    ||| n == 0x3000
}

/// The number of white-space characters that open `s`.
pub open spec fn leading_white(s: Seq<char>) -> nat
    decreases s.len(),
{
    if s.len() > 0 && is_white_space(s[0]) {
        1 + leading_white(s.drop_first())
    } else {
        0
    }
}

/// The number of white-space characters that close `s`.
pub open spec fn trailing_white(s: Seq<char>) -> nat
    decreases s.len(),
{
    if s.len() > 0 && is_white_space(s.last()) {
        1 + trailing_white(s.drop_last())
    } else {
        0
    }
}

/// `s` without its leading and trailing white space, as `str::trim` gives it.
pub open spec fn trimmed(s: Seq<char>) -> Seq<char> {
    let start = leading_white(s);
    if start == s.len() {
        Seq::empty()
    } else {
        s.subrange(start as int, s.len() - trailing_white(s))
    }
}

/// Where the white space that opens and closes a text lies.
proof fn lemma_white_ends(x: Seq<char>)
    ensures
        leading_white(x) <= x.len(),
        trailing_white(x) <= x.len(),
        forall|i: int| 0 <= i < leading_white(x) ==> is_white_space(#[trigger] x[i]),
        leading_white(x) < x.len() ==> !is_white_space(x[leading_white(x) as int]),
        forall|i: int| x.len() - trailing_white(x) <= i < x.len() ==> is_white_space(#[trigger] x[i]),
    decreases x.len(),
{
    if x.len() > 0 {
        lemma_white_ends(x.drop_first());
        lemma_white_ends(x.drop_last());
        if is_white_space(x[0]) {
            assert forall|i: int| 0 <= i < leading_white(x) implies is_white_space(#[trigger] x[i]) by {
                if i > 0 {
                    assert(x[i] == x.drop_first()[i - 1]);
                }
            }
            if leading_white(x) < x.len() {
                assert(x[leading_white(x) as int] == x.drop_first()[leading_white(x.drop_first()) as int]);
            }
        }
        if is_white_space(x.last()) {
            assert forall|i: int| x.len() - trailing_white(x) <= i < x.len() implies is_white_space(#[trigger] x[i]) by {
                if i < x.len() - 1 {
                    assert(x[i] == x.drop_last()[i]);
                }
            }
        }
    }
}

/// White space put before a text adds to the white space that opens it.
proof fn lemma_leading_after_white(w: Seq<char>, x: Seq<char>)
    requires
        forall|i: int| 0 <= i < w.len() ==> is_white_space(#[trigger] w[i]),
    ensures
        leading_white(w + x) == w.len() + leading_white(x),
    decreases w.len(),
{
    if w.len() == 0 {
        assert(w + x =~= x);
    } else {
        assert((w + x)[0] == w[0]);
        assert((w + x).drop_first() =~= w.drop_first() + x);
        assert forall|i: int| 0 <= i < w.drop_first().len() implies is_white_space(#[trigger] w.drop_first()[i]) by {
            assert(w.drop_first()[i] == w[i + 1]);
        }
        lemma_leading_after_white(w.drop_first(), x);
    }
}

/// White space put after a text adds to the white space that closes it.
proof fn lemma_trailing_before_white(x: Seq<char>, w: Seq<char>)
    requires
        forall|i: int| 0 <= i < w.len() ==> is_white_space(#[trigger] w[i]),
    ensures
        trailing_white(x + w) == w.len() + trailing_white(x),
    decreases w.len(),
{
    if w.len() == 0 {
        assert(x + w =~= x);
    } else {
        assert((x + w).last() == w.last());
        assert((x + w).drop_last() =~= x + w.drop_last());
        assert forall|i: int| 0 <= i < w.drop_last().len() implies is_white_space(#[trigger] w.drop_last()[i]) by {
            assert(w.drop_last()[i] == w[i]);
        }
        lemma_trailing_before_white(x, w.drop_last());
    }
}

/// Whatever follows a text that is not all white space leaves the white
/// space that opens it as it was.
proof fn lemma_leading_kept(x: Seq<char>, y: Seq<char>)
    requires
        leading_white(x) < x.len(),
    ensures
        leading_white(x + y) == leading_white(x),
    decreases x.len(),
{
    assert((x + y)[0] == x[0]);
    if is_white_space(x[0]) {
        assert((x + y).drop_first() =~= x.drop_first() + y);
        lemma_leading_kept(x.drop_first(), y);
    }
}

/// Whatever precedes a text that is not all white space leaves the white
/// space that closes it as it was.
proof fn lemma_trailing_kept(y: Seq<char>, x: Seq<char>)
    requires
        trailing_white(x) < x.len(),
    ensures
        trailing_white(y + x) == trailing_white(x),
    decreases x.len(),
{
    assert((y + x).last() == x.last());
    if is_white_space(x.last()) {
        assert((y + x).drop_last() =~= y + x.drop_last());
        lemma_trailing_kept(y, x.drop_last());
    }
}

/// White space around a text is trimmed away with the text's own: the
/// trimmed text is the same.
pub proof fn lemma_trim_surrounded(before: Seq<char>, x: Seq<char>, after: Seq<char>)
    requires
        forall|i: int| 0 <= i < before.len() ==> is_white_space(#[trigger] before[i]),
        forall|i: int| 0 <= i < after.len() ==> is_white_space(#[trigger] after[i]),
    ensures
        trimmed(before + x + after) == trimmed(x),
{
    let whole = before + x + after;
    lemma_white_ends(x);
    if leading_white(x) == x.len() {
        let w = before + x;
        assert forall|i: int| 0 <= i < w.len() implies is_white_space(#[trigger] w[i]) by {
            if i >= before.len() {
                assert(w[i] == x[i - before.len()]);
            }
        }
        lemma_leading_after_white(w, after);
        lemma_leading_after_white(after, Seq::<char>::empty());
        assert(after + Seq::<char>::empty() =~= after);
        assert(trimmed(whole) =~= trimmed(x));
    } else {
        let l = leading_white(x);
        let t = trailing_white(x);
        assert(t < x.len()) by {
            if t == x.len() {
                assert(is_white_space(x[l as int]));
            }
        }
        assert(l + t <= x.len()) by {
            if l + t > x.len() {
                assert(is_white_space(x[l as int]));
            }
        }
        lemma_leading_kept(x, after);
        lemma_leading_after_white(before, x + after);
        assert(whole =~= before + (x + after));
        lemma_trailing_kept(before, x);
        lemma_trailing_before_white(before + x, after);
        assert(trimmed(whole) =~= trimmed(x));
    }
}

/// Calls `str::trim`, which removes the leading and trailing white space of a
/// text, white space being what `char::is_whitespace` recognises.
#[verifier::external_body]
pub(crate) fn trim_text(s: &str) -> (t: &str)
    ensures
        t@ == trimmed(s@),
        t@.len() > 0 ==> !is_white_space(t@[0]) && !is_white_space(t@.last()),
{
    s.trim()
}

/// What `str::to_lowercase` makes of a text.
pub uninterp spec fn lowercase(s: Seq<char>) -> Seq<char>;

/// Calls `str::to_lowercase`.
///
/// The result depends on the text alone (Unicode's lowercase mapping, with
/// the final-sigma rule), so it is named by `lowercase` rather than stated.
#[verifier::external_body]
pub(crate) fn to_lowercase_text(s: &str) -> (lower: String)
    ensures
        lower@ == lowercase(s@),
{
    s.to_lowercase()
}

/// Whether `char::is_alphanumeric` accepts a character.
pub uninterp spec fn is_alphanumeric(c: char) -> bool;

/// Calls `char::is_alphanumeric`, whose answer depends on the character alone.
#[verifier::external_body]
pub(crate) fn char_is_alphanumeric(c: char) -> (b: bool)
    ensures
        b == is_alphanumeric(c),
{
    c.is_alphanumeric()
}

/// The first character of `char::to_lowercase`.
pub uninterp spec fn first_lowercase(c: char) -> char;

/// Calls `char::to_lowercase` and keeps the first character it yields (the
/// mapping always yields at least one; the character itself stands in should
/// it yield none).
#[verifier::external_body]
pub(crate) fn char_first_lowercase(c: char) -> (l: char)
    ensures
        l == first_lowercase(c),
{
    c.to_lowercase().next().unwrap_or(c)
}

/// Calls `String::push`, which appends one character.
#[verifier::external_body]
pub(crate) fn push_char(s: &mut String, c: char)
    ensures
        final(s)@ == old(s)@.push(c),
{
    s.push(c)
}

/// Calls `String::pop`, which removes and returns the last character, if any.
#[verifier::external_body]
pub(crate) fn pop_char(s: &mut String) -> (last: Option<char>)
    ensures
        old(s)@.len() == 0 ==> last == None::<char> && final(s)@ == old(s)@,
        old(s)@.len() > 0 ==> last == Some(old(s)@.last()) && final(s)@ == old(s)@.drop_last(),
{
    s.pop()
}

/// The character for a decimal digit.
pub open spec fn digit_char(d: nat) -> char {
    if d == 0 {
        '0'
    } else if d == 1 {
        '1'
    } else if d == 2 {
        '2'
    } else if d == 3 {
        '3'
    } else if d == 4 {
        '4'
    } else if d == 5 {
        '5'
    } else if d == 6 {
        '6'
    } else if d == 7 {
        '7'
    } else if d == 8 {
        '8'
    } else {
        '9'
    }
}

/// The decimal writing of a number, without leading zeros.
pub open spec fn decimal(n: nat) -> Seq<char>
    decreases n,
{
    if n < 10 {
        seq![digit_char(n)]
    } else {
        decimal(n / 10).push(digit_char(n % 10))
    }
}

fn digit(d: u32) -> (c: char)
    requires
        d < 10,
    ensures
        c == digit_char(d as nat),
{
    if d == 0 {
        '0'
    } else if d == 1 {
        '1'
    } else if d == 2 {
        '2'
    } else if d == 3 {
        '3'
    } else if d == 4 {
        '4'
    } else if d == 5 {
        '5'
    } else if d == 6 {
        '6'
    } else if d == 7 {
        '7'
    } else if d == 8 {
        '8'
    } else {
        '9'
    }
}

/// Appends the decimal writing of `n`.
pub fn push_decimal(s: &mut String, n: u32)
    ensures
        final(s)@ == old(s)@ + decimal(n as nat),
    decreases n,
{
    if n >= 10 {
        push_decimal(s, n / 10);
    }
    push_char(s, digit(n % 10));
    proof {
        if n >= 10 {
            assert(old(s)@ + decimal(n as nat) =~= old(s)@ + decimal((n / 10) as nat) + seq![
                digit_char((n % 10) as nat),
            ]);
        } else {
            assert(n % 10 == n);
        }
    }
}

/// Turns a literal into an owned text.
pub fn text_of(s: &str) -> (t: String)
    ensures
        t@ == s@,
{
    String::from_str(s)
}

} // verus!
