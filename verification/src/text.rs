//! Plain-text helpers: whitespace handling, URL-safe identifiers,
//! breadcrumb joining and decimal ordinals.
//!
//! Character classification and case folding are Unicode-table lookups of
//! the standard library; they are named here and relied upon, everything
//! else is verified against the specs below.

use vstd::prelude::*;
use vstd::string::StrSliceExecFns;

verus! {

/// What `char::is_whitespace` answers: the Unicode `White_Space` property.
pub uninterp spec fn char_white(c: char) -> bool;

/// What `char::is_alphanumeric` answers: the Unicode alphabetic and
/// numeric categories.
pub uninterp spec fn char_alnum(c: char) -> bool;

/// What `str::to_lowercase` returns: the Unicode-lowercased text.
pub uninterp spec fn lower_of(s: Seq<char>) -> Seq<char>;

pub assume_specification[ char::is_whitespace ](c: char) -> (r: bool)
    ensures
        r == char_white(c),
;

pub assume_specification[ char::is_alphanumeric ](c: char) -> (r: bool)
    ensures
        r == char_alnum(c),
;

/// Relies on `str::to_lowercase`: the result is a function of the
/// characters alone.
#[verifier::external_body]
pub fn lowercase(s: &str) -> (r: String)
    ensures
        r@ == lower_of(s@),
{
    s.to_lowercase()
}

/// Relies on `String::from_iter` over `char`: it collects exactly the
/// given characters in order.
#[verifier::external_body]
pub(crate) fn string_from_chars(v: &Vec<char>) -> (r: String)
    ensures
        r@ == v@,
{
    v.iter().collect()
}

/// The characters of `s` as a vector.
pub fn chars_vec(s: &str) -> (r: Vec<char>)
    ensures
        r@ == s@,
{
    let n = s.unicode_len();
    let mut out: Vec<char> = Vec::new();
    let mut i: usize = 0;
    while i < n
        invariant
            n == s@.len(),
            i <= n,
            out@ == s@.take(i as int),
        decreases n - i,
    {
        out.push(s.get_char(i));
        proof {
            assert(out@ =~= s@.take(i as int + 1));
        }
        i += 1;
    }
    proof {
        assert(s@.take(n as int) =~= s@);
    }
    out
}

/// ASCII uppercase letters fold to lowercase; everything else is kept.
pub open spec fn ascii_lower(c: char) -> char {
    if 'A' <= c <= 'Z' {
        (((c as u32) + 32) as u8) as char
    } else {
        c
    }
}

fn ascii_lower_exec(c: char) -> (r: char)
    ensures
        r == ascii_lower(c),
{
    if 'A' <= c && c <= 'Z' {
        (((c as u32) + 32) as u8) as char
    } else {
        c
    }
}

/// Longest whitespace prefix removed.
pub open spec fn skip_white(s: Seq<char>) -> Seq<char>
    decreases s.len(),
{
    if s.len() > 0 && char_white(s[0]) {
        skip_white(s.drop_first())
    } else {
        s
    }
}

/// Longest whitespace suffix removed.
pub open spec fn skip_white_end(s: Seq<char>) -> Seq<char>
    decreases s.len(),
{
    if s.len() > 0 && char_white(s.last()) {
        skip_white_end(s.drop_last())
    } else {
        s
    }
}

/// Whitespace stripped from both ends.
pub open spec fn spec_trim(s: Seq<char>) -> Seq<char> {
    skip_white_end(skip_white(s))
}

proof fn lemma_skip_white_len(s: Seq<char>)
    ensures
        skip_white(s).len() <= s.len(),
        skip_white_end(s).len() <= s.len(),
    decreases s.len(),
{
    if s.len() > 0 {
        if char_white(s[0]) {
            lemma_skip_white_len(s.drop_first());
        }
        if char_white(s.last()) {
            lemma_skip_white_len(s.drop_last());
        }
    }
}

/// Every run of two or more whitespace characters replaced by a single
/// space; lone whitespace characters are kept as they are.
pub open spec fn spec_collapse(s: Seq<char>) -> Seq<char>
    decreases s.len(),
    via spec_collapse_decreases
{
    if s.len() == 0 {
        Seq::empty()
    } else if s.len() >= 2 && char_white(s[0]) && char_white(s[1]) {
        seq![' '] + spec_collapse(skip_white(s))
    } else {
        seq![s[0]] + spec_collapse(s.drop_first())
    }
}

#[via_fn]
proof fn spec_collapse_decreases(s: Seq<char>) {
    if s.len() >= 2 && char_white(s[0]) && char_white(s[1]) {
        lemma_skip_white_len(s.drop_first());
        assert(skip_white(s) == skip_white(s.drop_first()));
    }
}

/// Trims the text and collapses inner whitespace runs, as the section URL
/// is tidied before it enters a locator.
pub fn tidy(s: &str) -> (r: String)
    ensures
        r@ == spec_collapse(spec_trim(s@)),
{
    let cv = chars_vec(s);
    let n = cv.len();
    proof {
        assert(s@.skip(0) =~= s@);
    }
    let mut a: usize = 0;
    while a < n && cv[a].is_whitespace()
        invariant
            n == s@.len(),
            cv@ == s@,
            a <= n,
            skip_white(s@) == skip_white(s@.skip(a as int)),
        decreases n - a,
    {
        proof {
            assert(s@.skip(a as int).drop_first() =~= s@.skip(a as int + 1));
        }
        a += 1;
    }
    proof {
        assert(skip_white(s@) == s@.skip(a as int));
    }
    let mut b: usize = n;
    while b > a && cv[b - 1].is_whitespace()
        invariant
            n == s@.len(),
            cv@ == s@,
            a <= b <= n,
            skip_white(s@) == s@.skip(a as int),
            skip_white_end(s@.skip(a as int)) == skip_white_end(s@.subrange(a as int, b as int)),
        decreases b,
    {
        proof {
            assert(s@.subrange(a as int, b as int).drop_last() =~= s@.subrange(
                a as int,
                b as int - 1,
            ));
        }
        b -= 1;
    }
    let ghost t = s@.subrange(a as int, b as int);
    proof {
        if b == a {
            assert(t =~= Seq::<char>::empty());
        }
        assert(spec_trim(s@) == t);
    }
    let mut out: Vec<char> = Vec::new();
    proof {
        assert(t.skip(0) =~= t);
        assert(out@ + spec_collapse(t) =~= spec_collapse(t));
    }
    let mut i: usize = a;
    while i < b
        invariant
            n == s@.len(),
            cv@ == s@,
            a <= i <= b <= n,
            t == s@.subrange(a as int, b as int),
            out@ + spec_collapse(t.skip(i as int - a as int)) == spec_collapse(t),
        decreases b - i,
    {
        let ghost off = i as int - a as int;
        if cv[i].is_whitespace() && i + 1 < b && cv[i + 1].is_whitespace() {
            let mut j = i;
            while j < b && cv[j].is_whitespace()
                invariant
                    n == s@.len(),
                    cv@ == s@,
                    a <= i <= j <= b <= n,
                    t == s@.subrange(a as int, b as int),
                    skip_white(t.skip(i as int - a as int)) == skip_white(
                        t.skip(j as int - a as int),
                    ),
                decreases b - j,
            {
                proof {
                    assert(t.skip(j as int - a as int).drop_first() =~= t.skip(
                        j as int + 1 - a as int,
                    ));
                }
                j += 1;
            }
            proof {
                assert(skip_white(t.skip(j as int - a as int)) == t.skip(j as int - a as int));
                assert(t.skip(off)[0] == s@[i as int] && t.skip(off)[1] == s@[i as int + 1]);
                assert(spec_collapse(t.skip(off)) == seq![' '] + spec_collapse(
                    t.skip(j as int - a as int),
                ));
            }
            let ghost out0 = out@;
            out.push(' ');
            proof {
                assert(out@ =~= out0 + seq![' ']);
                assert((out0 + seq![' ']) + spec_collapse(t.skip(j as int - a as int)) =~= out0 + (
                seq![' '] + spec_collapse(t.skip(j as int - a as int))));
            }
            i = j;
        } else {
            proof {
                assert(t.skip(off)[0] == s@[i as int]);
                assert(t.skip(off).drop_first() =~= t.skip(off + 1));
                assert(spec_collapse(t.skip(off)) == seq![s@[i as int]] + spec_collapse(
                    t.skip(off + 1),
                ));
            }
            let ghost out0 = out@;
            out.push(cv[i]);
            proof {
                assert(out@ =~= out0 + seq![s@[i as int]]);
                assert((out0 + seq![s@[i as int]]) + spec_collapse(t.skip(off + 1)) =~= out0 + (
                seq![s@[i as int]] + spec_collapse(t.skip(off + 1))));
            }
            i += 1;
        }
    }
    proof {
        assert(t.skip(b as int - a as int) =~= Seq::<char>::empty());
        assert(out@ =~= spec_collapse(t));
    }
    string_from_chars(&out)
}

/// Leading `#` characters removed.
pub open spec fn skip_hash(s: Seq<char>) -> Seq<char>
    decreases s.len(),
{
    if s.len() > 0 && s[0] == '#' {
        skip_hash(s.drop_first())
    } else {
        s
    }
}

/// Per-character normalization: alphanumerics, `_` and `-` are kept
/// (ASCII letters lowercased), whitespace becomes `-`, the rest is
/// dropped.
pub open spec fn spec_norm_id(s: Seq<char>) -> Seq<char>
    decreases s.len(),
{
    if s.len() == 0 {
        Seq::empty()
    } else {
        let rest = spec_norm_id(s.drop_first());
        if char_alnum(s[0]) || s[0] == '_' || s[0] == '-' {
            seq![ascii_lower(s[0])] + rest
        } else if char_white(s[0]) {
            seq!['-'] + rest
        } else {
            rest
        }
    }
}

/// The URL-safe identifier derived from a heading: whitespace and heading
/// markers trimmed away, then each character normalized.
pub open spec fn spec_id(s: Seq<char>) -> Seq<char> {
    spec_norm_id(spec_trim(skip_hash(spec_trim(s))))
}

fn norm_id_chars(cv: &Vec<char>) -> (r: Vec<char>)
    ensures
        r@ == spec_norm_id(cv@),
{
    let n = cv.len();
    let mut out: Vec<char> = Vec::new();
    proof {
        assert(cv@.skip(0) =~= cv@);
        assert(out@ + spec_norm_id(cv@) =~= spec_norm_id(cv@));
    }
    let mut i: usize = 0;
    while i < n
        invariant
            i <= n == cv@.len(),
            out@ + spec_norm_id(cv@.skip(i as int)) == spec_norm_id(cv@),
        decreases n - i,
    {
        proof {
            assert(cv@.skip(i as int).drop_first() =~= cv@.skip(i as int + 1));
            assert(cv@.skip(i as int)[0] == cv@[i as int]);
        }
        let c = cv[i];
        let ghost out0 = out@;
        if c.is_alphanumeric() || c == '_' || c == '-' {
            out.push(ascii_lower_exec(c));
            proof {
                assert(out@ =~= out0 + seq![ascii_lower(cv@[i as int])]);
                assert((out0 + seq![ascii_lower(cv@[i as int])]) + spec_norm_id(
                    cv@.skip(i as int + 1),
                ) =~= out0 + (seq![ascii_lower(cv@[i as int])] + spec_norm_id(
                    cv@.skip(i as int + 1),
                )));
            }
        } else if c.is_whitespace() {
            out.push('-');
            proof {
                assert(out@ =~= out0 + seq!['-']);
                assert((out0 + seq!['-']) + spec_norm_id(cv@.skip(i as int + 1)) =~= out0 + (
                seq!['-'] + spec_norm_id(cv@.skip(i as int + 1))));
            }
        }
        i += 1;
    }
    proof {
        assert(cv@.skip(n as int) =~= Seq::<char>::empty());
        assert(out@ =~= spec_norm_id(cv@));
    }
    out
}

/// Derives the URL-safe identifier for a heading text.
pub fn id_from_content(s: &str) -> (r: String)
    ensures
        r@ == spec_id(s@),
{
    let cv = chars_vec(s);
    let n = cv.len();
    proof {
        assert(s@.skip(0) =~= s@);
    }
    let mut a: usize = 0;
    while a < n && cv[a].is_whitespace()
        invariant
            n == cv@.len(),
            cv@ == s@,
            a <= n,
            skip_white(s@) == skip_white(s@.skip(a as int)),
        decreases n - a,
    {
        proof {
            assert(s@.skip(a as int).drop_first() =~= s@.skip(a as int + 1));
        }
        a += 1;
    }
    proof {
        assert(skip_white(s@) == s@.skip(a as int));
    }
    let mut b: usize = n;
    while b > a && cv[b - 1].is_whitespace()
        invariant
            n == cv@.len(),
            cv@ == s@,
            a <= b <= n,
            skip_white(s@) == s@.skip(a as int),
            skip_white_end(s@.skip(a as int)) == skip_white_end(s@.subrange(a as int, b as int)),
        decreases b,
    {
        proof {
            assert(s@.subrange(a as int, b as int).drop_last() =~= s@.subrange(
                a as int,
                b as int - 1,
            ));
        }
        b -= 1;
    }
    let ghost t1 = s@.subrange(a as int, b as int);
    proof {
        if b == a {
            assert(t1 =~= Seq::<char>::empty());
        }
        assert(spec_trim(s@) == t1);
    }
    // strip leading heading markers
    let mut h: usize = a;
    while h < b && cv[h] == '#'
        invariant
            n == cv@.len(),
            cv@ == s@,
            a <= h <= b <= n,
            t1 == s@.subrange(a as int, b as int),
            skip_hash(t1) == skip_hash(s@.subrange(h as int, b as int)),
        decreases b - h,
    {
        proof {
            assert(s@.subrange(h as int, b as int).drop_first() =~= s@.subrange(
                h as int + 1,
                b as int,
            ));
        }
        h += 1;
    }
    let ghost t2 = s@.subrange(h as int, b as int);
    proof {
        if h == b {
            assert(t2 =~= Seq::<char>::empty());
        }
        assert(skip_hash(t1) == t2);
    }
    // trim again
    let mut a2: usize = h;
    while a2 < b && cv[a2].is_whitespace()
        invariant
            n == cv@.len(),
            cv@ == s@,
            h <= a2 <= b <= n,
            t2 == s@.subrange(h as int, b as int),
            skip_white(t2) == skip_white(s@.subrange(a2 as int, b as int)),
        decreases b - a2,
    {
        proof {
            assert(s@.subrange(a2 as int, b as int).drop_first() =~= s@.subrange(
                a2 as int + 1,
                b as int,
            ));
        }
        a2 += 1;
    }
    let mut b2: usize = b;
    while b2 > a2 && cv[b2 - 1].is_whitespace()
        invariant
            n == cv@.len(),
            cv@ == s@,
            a2 <= b2 <= b <= n,
            t2 == s@.subrange(h as int, b as int),
            skip_white(t2) == s@.subrange(a2 as int, b as int),
            skip_white_end(s@.subrange(a2 as int, b as int)) == skip_white_end(
                s@.subrange(a2 as int, b2 as int),
            ),
        decreases b2,
    {
        proof {
            assert(s@.subrange(a2 as int, b2 as int).drop_last() =~= s@.subrange(
                a2 as int,
                b2 as int - 1,
            ));
        }
        b2 -= 1;
    }
    let ghost t3 = s@.subrange(a2 as int, b2 as int);
    proof {
        if a2 == b {
            assert(skip_white(t2) =~= Seq::<char>::empty());
        }
        if b2 == a2 {
            assert(t3 =~= Seq::<char>::empty());
        }
        assert(spec_trim(t2) == t3);
    }
    let mut mid: Vec<char> = Vec::new();
    let mut i: usize = a2;
    while i < b2
        invariant
            n == cv@.len(),
            cv@ == s@,
            a2 <= i <= b2 <= n,
            t3 == s@.subrange(a2 as int, b2 as int),
            mid@ == t3.take(i as int - a2 as int),
        decreases b2 - i,
    {
        mid.push(cv[i]);
        proof {
            assert(mid@ =~= t3.take(i as int + 1 - a2 as int));
        }
        i += 1;
    }
    proof {
        assert(t3.take(b2 as int - a2 as int) =~= t3);
    }
    let out = norm_id_chars(&mid);
    string_from_chars(&out)
}

/// The breadcrumb trail joined with a separator.
pub open spec fn spec_join(ss: Seq<Seq<char>>, sep: Seq<char>) -> Seq<char>
    decreases ss.len(),
{
    if ss.len() == 0 {
        Seq::empty()
    } else if ss.len() == 1 {
        ss[0]
    } else {
        spec_join(ss.drop_last(), sep) + sep + ss.last()
    }
}

/// Joins strings with a separator, as breadcrumbs are joined for display.
pub fn join_strings(ss: &Vec<String>, sep: &str) -> (r: String)
    ensures
        r@ == spec_join(ss.deep_view(), sep@),
{
    let ghost ssv = ss.deep_view();
    proof {
        assert(ssv.len() == ss@.len());
        assert(forall|j: int| 0 <= j < ssv.len() ==> ssv[j] == #[trigger] ss@[j]@);
    }
    let mut acc = String::new();
    let mut i: usize = 0;
    while i < ss.len()
        invariant
            ssv == ss.deep_view(),
            ssv.len() == ss@.len(),
            forall|j: int| 0 <= j < ssv.len() ==> ssv[j] == #[trigger] ss@[j]@,
            i <= ss@.len(),
            acc@ == spec_join(ssv.take(i as int), sep@),
        decreases ss@.len() - i,
    {
        if i > 0 {
            acc.append(sep);
        }
        acc.append(ss[i].as_str());
        proof {
            assert(ssv.take(i as int + 1).drop_last() =~= ssv.take(i as int));
            assert(ssv.take(i as int + 1).last() == ssv[i as int]);
            if i == 0 {
                assert(ssv.take(1) =~= seq![ssv[0]]);
            }
        }
        i += 1;
    }
    proof {
        assert(ssv.take(ssv.len() as int) =~= ssv);
    }
    acc
}

/// The decimal digit for a value below ten.
pub open spec fn dchar(d: nat) -> char {
    ((48 + d) as u8) as char
}

/// The decimal numeral of `n`, most significant digit first.
pub open spec fn spec_dec(n: nat) -> Seq<char>
    decreases n,
{
    if n < 10 {
        seq![dchar(n)]
    } else {
        spec_dec(n / 10).push(dchar(n % 10))
    }
}

fn digit_str(d: u64) -> (r: &'static str)
    requires
        d < 10,
    ensures
        r@ == seq![dchar(d as nat)],
{
    let r: &'static str = match d {
        0 => "0",
        1 => "1",
        2 => "2",
        3 => "3",
        4 => "4",
        5 => "5",
        6 => "6",
        7 => "7",
        8 => "8",
        _ => "9",
    };
    proof {
        reveal_strlit("0");
        reveal_strlit("1");
        reveal_strlit("2");
        reveal_strlit("3");
        reveal_strlit("4");
        reveal_strlit("5");
        reveal_strlit("6");
        reveal_strlit("7");
        reveal_strlit("8");
        reveal_strlit("9");
        assert(r@ =~= seq![dchar(d as nat)]);
    }
    r
}

/// Writes `n` in decimal, as footnote ordinals are rendered.
pub fn dec_string(n: u128) -> (r: String)
    ensures
        r@ == spec_dec(n as nat),
{
    if n < 10 {
        return digit_str(n as u64).to_owned();
    }
    let mut acc = String::new();
    let mut m = n;
    while m >= 10
        invariant
            1 <= m <= n,
            spec_dec(n as nat) == spec_dec(m as nat) + acc@,
        decreases m,
    {
        let ghost acc0 = acc@;
        let d = (m % 10) as u64;
        let mut piece = digit_str(d).to_owned();
        piece.append(acc.as_str());
        acc = piece;
        proof {
            assert(spec_dec(m as nat) =~= spec_dec((m as nat) / 10) + seq![dchar((m as nat) % 10)]);
            assert(spec_dec((m as nat) / 10) + acc@ =~= spec_dec(m as nat) + acc0);
        }
        m = m / 10;
    }
    let mut piece = digit_str(m as u64).to_owned();
    piece.append(acc.as_str());
    proof {
        assert(spec_dec(m as nat) + acc@ =~= piece@);
    }
    piece
}

} // verus!

