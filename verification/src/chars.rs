//! Decimal-digit character sequences: predicates, padding, trimming, and the
//! lemmas that make the numeric codec's round trip go through.
use vstd::prelude::*;

verus! {

/// `c` is one of the ten ASCII decimal digits.
pub open spec fn is_digit(c: char) -> bool {
    48 <= c as u32 <= 57
}

/// The numeric value of a digit character.
pub open spec fn digit_val(c: char) -> int {
    c as u32 - 48
}

/// The digit character has an even value.
pub open spec fn digit_even(c: char) -> bool {
    digit_val(c) % 2 == 0
}

/// Every character of `s` is a decimal digit.
pub open spec fn all_digits(s: Seq<char>) -> bool {
    forall|i: int| 0 <= i < s.len() ==> is_digit(#[trigger] s[i])
}

/// `n` zero characters.
pub open spec fn zeros(n: nat) -> Seq<char> {
    Seq::new(n, |i: int| '0')
}

/// `s`, left-padded with zeros to width `w` (unchanged when already wider).
pub open spec fn lpad(s: Seq<char>, w: nat) -> Seq<char> {
    if s.len() >= w {
        s
    } else {
        zeros((w - s.len()) as nat) + s
    }
}

/// `s`, right-padded with zeros to width `w` (unchanged when already wider).
pub open spec fn rpad(s: Seq<char>, w: nat) -> Seq<char> {
    if s.len() >= w {
        s
    } else {
        s + zeros((w - s.len()) as nat)
    }
}

/// `s` without its leading zero characters.
pub open spec fn trim_leading_zeros(s: Seq<char>) -> Seq<char>
    decreases s.len(),
{
    if s.len() > 0 && s[0] == '0' {
        trim_leading_zeros(s.drop_first())
    } else {
        s
    }
}

/// `s` without its trailing zero characters.
pub open spec fn trim_trailing_zeros(s: Seq<char>) -> Seq<char>
    decreases s.len(),
{
    if s.len() > 0 && s.last() == '0' {
        trim_trailing_zeros(s.drop_last())
    } else {
        s
    }
}

/// Prepending zeros does not change the left-trimmed value.
pub proof fn lemma_trim_leading_prepend(k: nat, s: Seq<char>)
    ensures
        trim_leading_zeros(zeros(k) + s) == trim_leading_zeros(s),
    decreases k,
{
    if k == 0 {
        assert(zeros(0) + s =~= s);
    } else {
        let t = zeros(k) + s;
        assert(t[0] == '0');
        assert(t.drop_first() =~= zeros((k - 1) as nat) + s);
        lemma_trim_leading_prepend((k - 1) as nat, s);
    }
}

/// A sequence that does not start with a zero is already left-trimmed.
pub proof fn lemma_trim_leading_noop(s: Seq<char>)
    requires
        s.len() == 0 || s[0] != '0',
    ensures
        trim_leading_zeros(s) == s,
{
}

/// Appending zeros does not change the right-trimmed value.
pub proof fn lemma_trim_trailing_append(s: Seq<char>, k: nat)
    ensures
        trim_trailing_zeros(s + zeros(k)) == trim_trailing_zeros(s),
    decreases k,
{
    if k == 0 {
        assert(s + zeros(0) =~= s);
    } else {
        let t = s + zeros(k);
        assert(t.last() == '0');
        assert(t.drop_last() =~= s + zeros((k - 1) as nat));
        lemma_trim_trailing_append(s, (k - 1) as nat);
    }
}

/// A sequence that does not end with a zero is already right-trimmed.
pub proof fn lemma_trim_trailing_noop(s: Seq<char>)
    requires
        s.len() == 0 || s.last() != '0',
    ensures
        trim_trailing_zeros(s) == s,
{
}

/// Left-padding and left-trimming cancel on a numeral body: a digit string
/// with no leading zero comes back unchanged, and the single digit `0` trims
/// to the empty sequence.
pub proof fn lemma_trim_of_lpad(s: Seq<char>, w: nat)
    requires
        s.len() > 0,
    ensures
        s[0] != '0' ==> trim_leading_zeros(lpad(s, w)) == s,
        s =~= seq!['0'] ==> trim_leading_zeros(lpad(s, w)) == Seq::<char>::empty(),
{
    if s[0] != '0' {
        if s.len() >= w {
            lemma_trim_leading_noop(s);
        } else {
            lemma_trim_leading_prepend((w - s.len()) as nat, s);
            lemma_trim_leading_noop(s);
        }
    }
    if s =~= seq!['0'] {
        let l = lpad(s, w);
        assert(seq!['0'].drop_first() =~= Seq::<char>::empty());
        assert(trim_leading_zeros(Seq::<char>::empty()) =~= Seq::<char>::empty());
        assert(seq!['0'][0] == '0');
        assert(trim_leading_zeros(seq!['0']) == trim_leading_zeros(seq!['0'].drop_first()));
        assert(trim_leading_zeros(seq!['0']) =~= Seq::<char>::empty());
        if s.len() >= w {
            assert(l == s);
            assert(trim_leading_zeros(l) =~= Seq::<char>::empty());
        } else {
            let k = (w - 1) as nat;
            assert(l =~= zeros(k) + seq!['0']);
            lemma_trim_leading_prepend(k, seq!['0']);
            assert(trim_leading_zeros(l) =~= Seq::<char>::empty());
        }
    }
}

/// Right-padding and right-trimming cancel on a fraction body with no
/// trailing zero.
pub proof fn lemma_trim_of_rpad(s: Seq<char>, w: nat)
    requires
        s.len() > 0,
        s.last() != '0',
    ensures
        trim_trailing_zeros(rpad(s, w)) == s,
{
    if s.len() >= w {
        lemma_trim_trailing_noop(s);
    } else {
        lemma_trim_trailing_append(s, (w - s.len()) as nat);
        lemma_trim_trailing_noop(s);
    }
}

/// The left-trimmed tail of a digit string is a digit string, and keeps no
/// leading zero.
pub proof fn lemma_trim_leading_shape(s: Seq<char>)
    ensures
        trim_leading_zeros(s).len() <= s.len(),
        all_digits(s) ==> all_digits(trim_leading_zeros(s)),
        trim_leading_zeros(s).len() > 0 ==> trim_leading_zeros(s)[0] != '0',
    decreases s.len(),
{
    if s.len() > 0 && s[0] == '0' {
        lemma_trim_leading_shape(s.drop_first());
        assert(all_digits(s) ==> all_digits(s.drop_first()));
    }
}

/// Whether `c` is a decimal digit, decided in executable code.
pub fn is_digit_char(c: char) -> (r: bool)
    ensures
        r == is_digit(c),
{
    let u = c as u32;
    48 <= u && u <= 57
}

/// Whether the digit `c` has an even value.
pub fn is_even_digit(c: char) -> (r: bool)
    requires
        is_digit(c),
    ensures
        r == digit_even(c),
{
    (c as u32 - 48) % 2 == 0
}

/// The characters of `s`, as a vector.
pub fn chars_of(s: &str) -> (r: Vec<char>)
    ensures
        r@ == s@,
{
    let n = s.unicode_len();
    let mut out: Vec<char> = Vec::new();
    let mut i: usize = 0;
    while i < n
        invariant
            i <= n,
            n == s@.len(),
            out@ =~= s@.subrange(0, i as int),
        decreases n - i,
    {
        out.push(s.get_char(i));
        i = i + 1;
    }
    proof {
        assert(out@ =~= s@);
    }
    out
}

/// Builds a `String` holding exactly the given characters.
///
/// Relies on std's `FromIterator<char> for String`: collecting characters
/// yields the string of those characters in order.
#[verifier::external_body]
pub(crate) fn string_of_chars(v: &Vec<char>) -> (r: String)
    ensures
        r@ == v@,
{
    v.iter().collect()
}

/// Every character of `v`, tested to be a decimal digit.
pub fn all_digits_vec(v: &Vec<char>) -> (r: bool)
    ensures
        r == all_digits(v@),
{
    let mut i: usize = 0;
    while i < v.len()
        invariant
            i <= v@.len(),
            forall|j: int| 0 <= j < i ==> is_digit(#[trigger] v@[j]),
        decreases v@.len() - i,
    {
        if !is_digit_char(v[i]) {
            return false;
        }
        i = i + 1;
    }
    true
}

/// `v`, left-padded with zero characters to width `w`.
pub fn lpad_vec(v: &Vec<char>, w: usize) -> (r: Vec<char>)
    ensures
        r@ == lpad(v@, w as nat),
        r@.len() >= w,
        r@.len() >= v@.len(),
{
    let mut out: Vec<char> = Vec::new();
    let mut i: usize = 0;
    let pad: usize = if v.len() >= w {
        0
    } else {
        w - v.len()
    };
    while i < pad
        invariant
            i <= pad,
            out@ =~= zeros(i as nat),
        decreases pad - i,
    {
        out.push('0');
        assert(out@.drop_last() =~= zeros((i) as nat));
        assert(out@ =~= zeros((i + 1) as nat));
        i = i + 1;
    }
    let mut j: usize = 0;
    while j < v.len()
        invariant
            j <= v@.len(),
            out@ =~= zeros(pad as nat) + v@.subrange(0, j as int),
        decreases v@.len() - j,
    {
        out.push(v[j]);
        assert(out@ =~= zeros(pad as nat) + v@.subrange(0, j + 1 as int));
        j = j + 1;
    }
    proof {
        assert(v@.subrange(0, v@.len() as int) =~= v@);
        if v@.len() >= w {
            assert(out@ =~= zeros(0) + v@);
            assert(out@ =~= v@);
        }
    }
    out
}

/// `v`, right-padded with zero characters to width `w`.
pub fn rpad_vec(v: &Vec<char>, w: usize) -> (r: Vec<char>)
    ensures
        r@ == rpad(v@, w as nat),
        r@.len() >= w,
        r@.len() >= v@.len(),
{
    let mut out: Vec<char> = Vec::new();
    let mut j: usize = 0;
    while j < v.len()
        invariant
            j <= v@.len(),
            out@ =~= v@.subrange(0, j as int),
        decreases v@.len() - j,
    {
        out.push(v[j]);
        assert(out@ =~= v@.subrange(0, j + 1 as int));
        j = j + 1;
    }
    assert(out@ =~= v@);
    let pad: usize = if v.len() >= w {
        0
    } else {
        w - v.len()
    };
    let mut i: usize = 0;
    while i < pad
        invariant
            i <= pad,
            out@ =~= v@ + zeros(i as nat),
        decreases pad - i,
    {
        out.push('0');
        assert(out@ =~= v@ + zeros((i + 1) as nat));
        i = i + 1;
    }
    proof {
        if v@.len() >= w {
            assert(out@ =~= v@ + zeros(0));
            assert(out@ =~= v@);
        }
    }
    out
}

/// `v` without its leading zero characters.
pub fn trim_leading_vec(v: &Vec<char>) -> (r: Vec<char>)
    ensures
        r@ == trim_leading_zeros(v@),
{
    proof {
        assert(v@.subrange(0, v@.len() as int) =~= v@);
    }
    let mut i: usize = 0;
    while i < v.len() && v[i] == '0'
        invariant
            i <= v@.len(),
            trim_leading_zeros(v@) == trim_leading_zeros(v@.subrange(i as int, v@.len() as int)),
        decreases v@.len() - i,
    {
        proof {
            let rest = v@.subrange(i as int, v@.len() as int);
            assert(rest[0] == '0');
            assert(rest.drop_first() =~= v@.subrange(i + 1 as int, v@.len() as int));
        }
        i = i + 1;
    }
    let mut out: Vec<char> = Vec::new();
    let mut j: usize = i;
    while j < v.len()
        invariant
            i <= j <= v@.len(),
            out@ =~= v@.subrange(i as int, j as int),
        decreases v@.len() - j,
    {
        out.push(v[j]);
        assert(out@ =~= v@.subrange(i as int, j + 1 as int));
        j = j + 1;
    }
    proof {
        let rest = v@.subrange(i as int, v@.len() as int);
        if i < v@.len() {
            assert(rest[0] != '0');
        }
        lemma_trim_leading_noop(rest);
        assert(out@ =~= rest);
    }
    out
}

/// `v` without its trailing zero characters.
pub fn trim_trailing_vec(v: &Vec<char>) -> (r: Vec<char>)
    ensures
        r@ == trim_trailing_zeros(v@),
{
    proof {
        assert(v@.subrange(0, v@.len() as int) =~= v@);
    }
    let mut k: usize = v.len();
    while k > 0 && v[k - 1] == '0'
        invariant
            k <= v@.len(),
            trim_trailing_zeros(v@) == trim_trailing_zeros(v@.subrange(0, k as int)),
        decreases k,
    {
        proof {
            let rest = v@.subrange(0, k as int);
            assert(rest.last() == '0');
            assert(rest.drop_last() =~= v@.subrange(0, k - 1 as int));
        }
        k = k - 1;
    }
    let mut out: Vec<char> = Vec::new();
    let mut j: usize = 0;
    while j < k
        invariant
            j <= k <= v@.len(),
            out@ =~= v@.subrange(0, j as int),
        decreases k - j,
    {
        out.push(v[j]);
        assert(out@ =~= v@.subrange(0, j + 1 as int));
        j = j + 1;
    }
    proof {
        let rest = v@.subrange(0, k as int);
        if k > 0 {
            assert(rest.last() != '0');
        }
        lemma_trim_trailing_noop(rest);
        assert(out@ =~= rest);
    }
    out
}

/// The elements of `v` from index `from` on, as a fresh vector.
pub fn tail_vec(v: &Vec<char>, from: usize) -> (r: Vec<char>)
    requires
        from <= v@.len(),
    ensures
        r@ == v@.subrange(from as int, v@.len() as int),
{
    let mut out: Vec<char> = Vec::new();
    let mut j: usize = from;
    while j < v.len()
        invariant
            from <= j <= v@.len(),
            out@ =~= v@.subrange(from as int, j as int),
        decreases v@.len() - j,
    {
        out.push(v[j]);
        assert(out@ =~= v@.subrange(from as int, j + 1 as int));
        j = j + 1;
    }
    out
}

/// The first `upto` elements of `v`, as a fresh vector.
pub fn head_vec(v: &Vec<char>, upto: usize) -> (r: Vec<char>)
    requires
        upto <= v@.len(),
    ensures
        r@ == v@.subrange(0, upto as int),
{
    let mut out: Vec<char> = Vec::new();
    let mut j: usize = 0;
    while j < upto
        invariant
            j <= upto <= v@.len(),
            out@ =~= v@.subrange(0, j as int),
        decreases upto - j,
    {
        out.push(v[j]);
        assert(out@ =~= v@.subrange(0, j + 1 as int));
        j = j + 1;
    }
    out
}

/// The elements of `v` from `from` up to `upto`, as a fresh vector.
pub fn slice_vec(v: &Vec<char>, from: usize, upto: usize) -> (r: Vec<char>)
    requires
        from <= upto <= v@.len(),
    ensures
        r@ == v@.subrange(from as int, upto as int),
{
    let mut out: Vec<char> = Vec::new();
    let mut j: usize = from;
    while j < upto
        invariant
            from <= j <= upto <= v@.len(),
            out@ =~= v@.subrange(from as int, j as int),
        decreases upto - j,
    {
        out.push(v[j]);
        assert(out@ =~= v@.subrange(from as int, j + 1 as int));
        j = j + 1;
    }
    out
}

/// The digit character of a value below ten.
pub fn digit_char(d: u64) -> (r: char)
    requires
        d < 10,
    ensures
        is_digit(r),
        digit_val(r) == d,
{
    let b: u8 = 48 + (d as u8);
    b as char
}

} // verus!
