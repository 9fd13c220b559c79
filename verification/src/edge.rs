//! Branch lengths as exact decimal numbers.
//!
//! A branch length is stored exactly as it was written in the Newick text:
//! the digits before the decimal point, whether a point was written, and the
//! digits after it. Keeping the written form means serialization reproduces
//! the input text character for character, and arithmetic on the digit
//! sequences is exact, with no rounding at any magnitude.

use vstd::prelude::*;

verus! {

/// Numeric value of a big-endian sequence of decimal digits.
pub open spec fn digits_val(s: Seq<u8>) -> nat
    decreases s.len(),
{
    if s.len() == 0 {
        0
    } else {
        digits_val(s.drop_last()) * 10 + s.last() as nat
    }
}

/// Ten to the power `n`.
pub open spec fn pow10(n: nat) -> nat
    decreases n,
{
    if n == 0 {
        1
    } else {
        10 * pow10((n - 1) as nat)
    }
}

/// Every element of `s` is a decimal digit value (0 through 9).
pub open spec fn all_digits(s: Seq<u8>) -> bool {
    forall|i: int| 0 <= i < s.len() ==> s[i] < 10
}

/// The character that prints a digit value.
pub open spec fn digit_to_char(d: u8) -> char {
    match d {
        0 => '0',
        1 => '1',
        2 => '2',
        3 => '3',
        4 => '4',
        5 => '5',
        6 => '6',
        7 => '7',
        8 => '8',
        _ => '9',
    }
}

/// The digit value of a digit character.
pub open spec fn char_to_digit(c: char) -> u8 {
    match c {
        '0' => 0,
        '1' => 1,
        '2' => 2,
        '3' => 3,
        '4' => 4,
        '5' => 5,
        '6' => 6,
        '7' => 7,
        '8' => 8,
        _ => 9,
    }
}

/// `c` is one of the ten digit characters.
pub open spec fn is_digit_char(c: char) -> bool {
    c == '0' || c == '1' || c == '2' || c == '3' || c == '4' || c == '5' || c == '6' || c == '7'
        || c == '8' || c == '9'
}

/// The characters that print a digit sequence.
pub open spec fn digits_text(s: Seq<u8>) -> Seq<char> {
    s.map_values(|d: u8| digit_to_char(d))
}

/// The digit values of a run of digit characters.
pub open spec fn text_digits(s: Seq<char>) -> Seq<u8> {
    s.map_values(|c: char| char_to_digit(c))
}

/// Rendering a digit sequence and reading it back is the identity.
pub proof fn lemma_text_digits_roundtrip(a: Seq<u8>)
    requires
        all_digits(a),
    ensures
        text_digits(digits_text(a)) == a,
{
    assert forall|i: int| 0 <= i < a.len() implies text_digits(digits_text(a))[i] == a[i] by {
        assert(a[i] < 10);
    }
    assert(text_digits(digits_text(a)) =~= a);
}

/// The branch length that a written form denotes: the digits before the
/// point, whether a point is present, and the digits after it.
pub open spec fn edge_of_text(s: Seq<char>) -> EdgeView {
    if exists|k: int| 0 <= k < s.len() && s[k] == '.' {
        let k = choose|k: int| 0 <= k < s.len() && s[k] == '.';
        EdgeView {
            int_part: text_digits(s.take(k)),
            point: true,
            frac_part: text_digits(s.skip(k + 1)),
        }
    } else {
        EdgeView { int_part: text_digits(s), point: false, frac_part: Seq::empty() }
    }
}

/// A well-formed edge is the one its own text denotes: a written form names
/// exactly one edge.
pub proof fn lemma_edge_of_text_unique(e: EdgeView, s: Seq<char>)
    requires
        e.wf(),
        e.text() == s,
    ensures
        e == edge_of_text(s),
{
    assert(forall|d: u8| d < 10 ==> digit_to_char(d) != '.');
    if e.point {
        let kp = e.int_part.len() as int;
        assert(s[kp] == '.');
        assert forall|k: int| 0 <= k < s.len() && s[k] == '.' implies k == kp by {
            if k < kp {
                assert(s[k] == digits_text(e.int_part)[k]);
                assert(e.int_part[k] < 10);
            } else if k > kp {
                assert(s[k] == digits_text(e.frac_part)[k - kp - 1]);
                assert(e.frac_part[k - kp - 1] < 10);
            }
        }
        let kc = choose|k: int| 0 <= k < s.len() && s[k] == '.';
        assert(kc == kp);
        assert(s.take(kp) =~= digits_text(e.int_part));
        assert(s.skip(kp + 1) =~= digits_text(e.frac_part));
        lemma_text_digits_roundtrip(e.int_part);
        lemma_text_digits_roundtrip(e.frac_part);
        assert(e =~= edge_of_text(s));
    } else {
        assert(s == digits_text(e.int_part));
        assert forall|k: int| 0 <= k < s.len() implies s[k] != '.' by {
            assert(s[k] == digits_text(e.int_part)[k]);
            assert(e.int_part[k] < 10);
        }
        assert(e.frac_part.len() == 0);
        lemma_text_digits_roundtrip(e.int_part);
        assert(e =~= edge_of_text(s));
    }
}

/// A branch length: an unsigned decimal number, kept exactly as written.
///
/// The value is `digits(int_part ++ frac_part) / 10^frac_part.len()`.
/// Leading and trailing zeros and the presence of the point are preserved,
/// so rendering the edge reproduces the original text.
#[derive(Debug, Clone)]
pub struct Edge {
    /// Digit values written before the decimal point (possibly empty).
    pub int_part: Vec<u8>,
    /// Whether a decimal point was written.
    pub point: bool,
    /// Digit values written after the decimal point (possibly empty).
    pub frac_part: Vec<u8>,
}

/// The mathematical content of an [`Edge`]: its digit sequences.
#[verifier::ext_equal]
pub struct EdgeView {
    /// Digit values written before the decimal point.
    pub int_part: Seq<u8>,
    /// Whether a decimal point was written.
    pub point: bool,
    /// Digit values written after the decimal point.
    pub frac_part: Seq<u8>,
}

impl View for Edge {
    type V = EdgeView;

    open spec fn view(&self) -> EdgeView {
        EdgeView { int_part: self.int_part@, point: self.point, frac_part: self.frac_part@ }
    }
}

impl EdgeView {
    /// The stored digit sequences form a number: all entries are digits,
    /// at least one digit is present, and fraction digits imply a point.
    pub open spec fn wf(self) -> bool {
        &&& all_digits(self.int_part)
        &&& all_digits(self.frac_part)
        &&& self.int_part.len() + self.frac_part.len() >= 1
        &&& self.frac_part.len() > 0 ==> self.point
    }

    /// The combined digit string (integer then fraction digits).
    pub open spec fn mantissa(self) -> Seq<u8> {
        self.int_part + self.frac_part
    }

    /// Numerator of the value: the combined digits read as an integer.
    pub open spec fn num(self) -> nat {
        digits_val(self.mantissa())
    }

    /// The value's denominator is ten to this power.
    pub open spec fn scale(self) -> nat {
        self.frac_part.len()
    }

    /// The text this edge renders as: exactly what was parsed.
    pub open spec fn text(self) -> Seq<char> {
        if self.point {
            digits_text(self.int_part) + seq!['.'] + digits_text(self.frac_part)
        } else {
            digits_text(self.int_part)
        }
    }

    /// Two edges denote the same numeric value.
    pub open spec fn same_value(self, other: EdgeView) -> bool {
        value_eq(self.num(), self.scale(), other.num(), other.scale())
    }

    /// The edge is in canonical form: no superfluous leading or trailing
    /// zeros, and the point is written exactly when fraction digits follow.
    pub open spec fn canonical(self) -> bool {
        &&& self.wf()
        &&& self.int_part.len() >= 1
        &&& self.int_part.len() > 1 ==> self.int_part[0] != 0
        &&& self.point <==> self.frac_part.len() > 0
        &&& self.frac_part.len() > 0 ==> self.frac_part.last() != 0
    }
}

impl Edge {
    /// The stored digit sequences form a number.
    pub open spec fn wf(self) -> bool {
        self@.wf()
    }

    /// The combined digit string (integer then fraction digits).
    pub open spec fn mantissa(self) -> Seq<u8> {
        self@.mantissa()
    }

    /// Numerator of the value: the combined digits read as an integer.
    pub open spec fn num(self) -> nat {
        self@.num()
    }

    /// The value's denominator is ten to this power.
    pub open spec fn scale(self) -> nat {
        self@.scale()
    }

    /// The text this edge renders as: exactly what was parsed.
    pub open spec fn text(self) -> Seq<char> {
        self@.text()
    }

    /// Two edges denote the same numeric value.
    pub open spec fn same_value(self, other: Edge) -> bool {
        self@.same_value(other@)
    }

    /// The edge is in canonical form.
    pub open spec fn canonical(self) -> bool {
        self@.canonical()
    }

    /// An exact structural copy of this edge.
    pub fn duplicate(&self) -> (r: Edge)
        ensures
            r@ == self@,
    {
        Edge {
            int_part: self.int_part.clone(),
            point: self.point,
            frac_part: self.frac_part.clone(),
        }
    }
}

/// An exact structural copy of an optional edge.
pub fn duplicate_opt_edge(e: &Option<Edge>) -> (r: Option<Edge>)
    ensures
        opt_edge_view(r) == opt_edge_view(*e),
{
    match e {
        Some(edge) => Some(edge.duplicate()),
        None => None,
    }
}

/// The view of an optional edge.
pub open spec fn opt_edge_view(e: Option<Edge>) -> Option<EdgeView> {
    match e {
        Some(edge) => Some(edge@),
        None => None,
    }
}

/// The rational `n1 / 10^s1` equals `n2 / 10^s2`.
pub open spec fn value_eq(n1: nat, s1: nat, n2: nat, s2: nat) -> bool {
    n1 * pow10(s2) == n2 * pow10(s1)
}

/// The rational `n1 / 10^s1` is at most `n2 / 10^s2`.
pub open spec fn value_le(n1: nat, s1: nat, n2: nat, s2: nat) -> bool {
    n1 * pow10(s2) <= n2 * pow10(s1)
}

/// A sequence of `k` zero digits.
pub open spec fn zero_digits(k: nat) -> Seq<u8> {
    Seq::new(k, |i: int| 0u8)
}

pub proof fn lemma_pow10_pos(n: nat)
    ensures
        pow10(n) >= 1,
    decreases n,
{
    if n > 0 {
        lemma_pow10_pos((n - 1) as nat);
    }
}

pub proof fn lemma_pow10_adds(a: nat, b: nat)
    ensures
        pow10(a + b) == pow10(a) * pow10(b),
    decreases a,
{
    if a == 0 {
        assert(pow10(0) == 1);
        assert(pow10(0 + b) == 1 * pow10(b));
    } else {
        let a0 = (a - 1) as nat;
        lemma_pow10_adds(a0, b);
        assert(pow10(a + b) == 10 * pow10(a0 + b));
        assert(pow10(a) == 10 * pow10(a0));
        assert(10 * (pow10(a0) * pow10(b)) == (10 * pow10(a0)) * pow10(b)) by (nonlinear_arith);
    }
}

pub proof fn lemma_digits_val_push(s: Seq<u8>, d: u8)
    ensures
        digits_val(s.push(d)) == digits_val(s) * 10 + d,
{
    assert(s.push(d).drop_last() =~= s);
    assert(s.push(d).last() == d);
}

pub proof fn lemma_digits_val_append(a: Seq<u8>, b: Seq<u8>)
    ensures
        digits_val(a + b) == digits_val(a) * pow10(b.len()) + digits_val(b),
    decreases b.len(),
{
    if b.len() == 0 {
        assert(a + b =~= a);
        assert(digits_val(b) == 0);
        assert(pow10(0) == 1);
    } else {
        let b0 = b.drop_last();
        let d = b.last();
        lemma_digits_val_append(a, b0);
        assert(a + b =~= (a + b0).push(d));
        lemma_digits_val_push(a + b0, d);
        assert(digits_val(a + b) == digits_val(a + b0) * 10 + d);
        assert(digits_val(b) == digits_val(b0) * 10 + d);
        assert(pow10(b.len()) == 10 * pow10(b0.len()));
        assert((digits_val(a) * pow10(b0.len()) + digits_val(b0)) * 10 == digits_val(a) * (10
            * pow10(b0.len())) + digits_val(b0) * 10) by (nonlinear_arith);
    }
}

pub proof fn lemma_digits_val_bound(s: Seq<u8>)
    requires
        all_digits(s),
    ensures
        digits_val(s) < pow10(s.len()),
    decreases s.len(),
{
    if s.len() == 0 {
    } else {
        let s0 = s.drop_last();
        assert(all_digits(s0));
        lemma_digits_val_bound(s0);
        assert(s.last() < 10);
        assert(digits_val(s0) * 10 + 9 < pow10(s0.len()) * 10) by {
            assert(digits_val(s0) + 1 <= pow10(s0.len()));
            assert((digits_val(s0) + 1) * 10 <= pow10(s0.len()) * 10) by (nonlinear_arith)
                requires
                    digits_val(s0) + 1 <= pow10(s0.len()),
            ;
        }
        assert(pow10(s.len()) == 10 * pow10(s0.len()));
    }
}

pub proof fn lemma_digits_val_zeros(k: nat)
    ensures
        digits_val(zero_digits(k)) == 0,
    decreases k,
{
    if k > 0 {
        lemma_digits_val_zeros((k - 1) as nat);
        assert(zero_digits(k).drop_last() =~= zero_digits((k - 1) as nat));
        assert(zero_digits(k).last() == 0);
    }
}

/// Removing a leading zero digit keeps the value.
pub proof fn lemma_digits_val_strip_zero(s: Seq<u8>)
    requires
        s.len() >= 1,
        s[0] == 0,
    ensures
        digits_val(s) == digits_val(s.skip(1)),
{
    let head = Seq::<u8>::empty().push(s[0]);
    let rest = s.skip(1);
    assert(s =~= head + rest);
    lemma_digits_val_append(head, rest);
    lemma_digits_val_push(Seq::<u8>::empty(), s[0]);
    assert(digits_val(head) == 0);
    assert(digits_val(s) == 0 * pow10(rest.len()) + digits_val(rest));
}

/// Equal-length digit strings that agree up to position `i` and differ there
/// order their values the same way as the digits at `i`.
pub proof fn lemma_digits_val_lex(a: Seq<u8>, b: Seq<u8>, i: int)
    requires
        a.len() == b.len(),
        all_digits(a),
        all_digits(b),
        0 <= i < a.len(),
        forall|k: int| 0 <= k < i ==> a[k] == b[k],
        a[i] < b[i],
    ensures
        digits_val(a) < digits_val(b),
{
    let m = (a.len() - i - 1) as nat;
    assert(a =~= a.take(i + 1) + a.skip(i + 1));
    assert(b =~= b.take(i + 1) + b.skip(i + 1));
    lemma_digits_val_append(a.take(i + 1), a.skip(i + 1));
    lemma_digits_val_append(b.take(i + 1), b.skip(i + 1));
    assert(a.take(i + 1) =~= a.take(i).push(a[i]));
    assert(b.take(i + 1) =~= b.take(i).push(b[i]));
    lemma_digits_val_push(a.take(i), a[i]);
    lemma_digits_val_push(b.take(i), b[i]);
    assert(a.take(i) =~= b.take(i));
    assert(all_digits(a.skip(i + 1)));
    lemma_digits_val_bound(a.skip(i + 1));
    let common = digits_val(a.take(i));
    let va = digits_val(a.take(i + 1));
    let vb = digits_val(b.take(i + 1));
    assert(va + 1 <= vb);
    assert(digits_val(a) < (va + 1) * pow10(m)) by {
        assert(va * pow10(m) + pow10(m) == (va + 1) * pow10(m)) by (nonlinear_arith);
    }
    assert((va + 1) * pow10(m) <= vb * pow10(m)) by (nonlinear_arith)
        requires
            va + 1 <= vb,
    ;
    assert(vb * pow10(m) <= digits_val(b));
}

/// Equal-length digit strings with equal values at every position have
/// comparable values by prefix scanning; used by the comparison routine.
pub proof fn lemma_digits_val_eq(a: Seq<u8>, b: Seq<u8>)
    requires
        a.len() == b.len(),
        forall|k: int| 0 <= k < a.len() ==> a[k] == b[k],
    ensures
        digits_val(a) == digits_val(b),
{
    assert(a =~= b);
}

/// The lowest `i` digits of `s` (all of `s` once `i` reaches its length).
pub open spec fn low_digits(s: Seq<u8>, i: nat) -> Seq<u8> {
    if i <= s.len() {
        s.skip((s.len() - i) as int)
    } else {
        s
    }
}

/// `s` left-padded with zeros to length `n`.
pub open spec fn pad_digits(s: Seq<u8>, n: nat) -> Seq<u8> {
    zero_digits((n - s.len()) as nat) + s
}

pub proof fn lemma_digits_val_prepend(d: u8, s: Seq<u8>)
    ensures
        digits_val(seq![d] + s) == d * pow10(s.len()) + digits_val(s),
{
    assert(seq![d] =~= Seq::<u8>::empty().push(d));
    lemma_digits_val_push(Seq::<u8>::empty(), d);
    lemma_digits_val_append(seq![d], s);
}

pub proof fn lemma_low_digits_step(s: Seq<u8>, i: nat)
    requires
        i < s.len(),
    ensures
        low_digits(s, i + 1) =~= seq![s[s.len() - i - 1]] + low_digits(s, i),
        digits_val(low_digits(s, i + 1)) == s[s.len() - i - 1] * pow10(i) + digits_val(
            low_digits(s, i),
        ),
{
    assert(low_digits(s, i + 1) =~= seq![s[s.len() - i - 1]] + low_digits(s, i));
    lemma_digits_val_prepend(s[s.len() - i - 1], low_digits(s, i));
    assert(low_digits(s, i).len() == i);
}

pub proof fn lemma_pad_digits_val(s: Seq<u8>, n: nat)
    requires
        s.len() <= n,
    ensures
        pad_digits(s, n).len() == n,
        digits_val(pad_digits(s, n)) == digits_val(s),
{
    lemma_digits_val_zeros((n - s.len()) as nat);
    lemma_digits_val_append(zero_digits((n - s.len()) as nat), s);
}

/// Adds two digit strings exactly.
pub fn digits_plus(a: &Vec<u8>, b: &Vec<u8>) -> (r: Vec<u8>)
    requires
        all_digits(a@),
        all_digits(b@),
    ensures
        all_digits(r@),
        digits_val(r@) == digits_val(a@) + digits_val(b@),
{
    let alen = a.len();
    let blen = b.len();
    let n = if alen > blen {
        alen
    } else {
        blen
    };
    let mut out: Vec<u8> = Vec::new();
    let mut carry: u8 = 0;
    let mut i: usize = 0;
    while i < n
        invariant
            i <= n,
            alen == a@.len(),
            blen == b@.len(),
            alen <= n,
            blen <= n,
            carry <= 1,
            all_digits(a@),
            all_digits(b@),
            all_digits(out@),
            out@.len() == i,
            digits_val(out@) + (carry as nat) * pow10(i as nat) == digits_val(
                low_digits(a@, i as nat),
            ) + digits_val(low_digits(b@, i as nat)),
        decreases n - i,
    {
        let da: u8 = if i < alen {
            a[alen - 1 - i]
        } else {
            0
        };
        let db: u8 = if i < blen {
            b[blen - 1 - i]
        } else {
            0
        };
        let t = da + db + carry;
        let dig = t % 10;
        let newcarry = t / 10;
        proof {
            let gi = i as nat;
            let p = pow10(gi);
            if i < alen {
                lemma_low_digits_step(a@, gi);
            } else {
                assert(low_digits(a@, gi + 1) =~= low_digits(a@, gi));
            }
            if i < blen {
                lemma_low_digits_step(b@, gi);
            } else {
                assert(low_digits(b@, gi + 1) =~= low_digits(b@, gi));
            }
            assert(digits_val(seq![dig] + out@) == dig * p + digits_val(out@)) by {
                lemma_digits_val_prepend(dig, out@);
            }
            assert(t == dig + 10 * newcarry);
            assert((dig + 10 * newcarry) as nat * p == dig * p + (newcarry as nat) * (10 * p))
                by (nonlinear_arith);
            assert((da + db + carry) as nat * p == da * p + db * p + (carry as nat) * p)
                by (nonlinear_arith);
            assert(pow10(gi + 1) == 10 * p);
            assert((newcarry as nat) * (10 * p) == (newcarry as nat) * pow10(gi + 1));
        }
        let ghost out0 = out@;
        out.insert(0, dig);
        carry = newcarry;
        i += 1;
        proof {
            assert(out@ =~= seq![dig] + out0);
        }
    }
    proof {
        assert(low_digits(a@, n as nat) =~= a@);
        assert(low_digits(b@, n as nat) =~= b@);
    }
    if carry > 0 {
        proof {
            lemma_digits_val_prepend(carry, out@);
        }
        let c = carry;
        let ghost out0 = out@;
        out.insert(0, c);
        proof {
            assert(out@ =~= seq![c] + out0);
        }
    }
    out
}

/// Compares the values of two digit strings.
pub fn digits_le_val(a: &Vec<u8>, b: &Vec<u8>) -> (r: bool)
    requires
        all_digits(a@),
        all_digits(b@),
    ensures
        r == (digits_val(a@) <= digits_val(b@)),
{
    let alen = a.len();
    let blen = b.len();
    let n = if alen > blen {
        alen
    } else {
        blen
    };
    let ghost pa = pad_digits(a@, n as nat);
    let ghost pb = pad_digits(b@, n as nat);
    proof {
        lemma_pad_digits_val(a@, n as nat);
        lemma_pad_digits_val(b@, n as nat);
        assert(all_digits(pa));
        assert(all_digits(pb));
    }
    let mut i: usize = 0;
    while i < n
        invariant
            i <= n,
            alen == a@.len(),
            blen == b@.len(),
            alen <= n,
            blen <= n,
            all_digits(a@),
            all_digits(b@),
            pa == pad_digits(a@, n as nat),
            pb == pad_digits(b@, n as nat),
            pa.len() == n,
            pb.len() == n,
            all_digits(pa),
            all_digits(pb),
            digits_val(pa) == digits_val(a@),
            digits_val(pb) == digits_val(b@),
            forall|k: int| 0 <= k < i ==> pa[k] == pb[k],
        decreases n - i,
    {
        let da: u8 = if i >= n - alen {
            a[i - (n - alen)]
        } else {
            0
        };
        let db: u8 = if i >= n - blen {
            b[i - (n - blen)]
        } else {
            0
        };
        proof {
            assert(pa[i as int] == da);
            assert(pb[i as int] == db);
        }
        if da < db {
            proof {
                lemma_digits_val_lex(pa, pb, i as int);
            }
            return true;
        }
        if da > db {
            proof {
                lemma_digits_val_lex(pb, pa, i as int);
            }
            return false;
        }
        i += 1;
    }
    proof {
        lemma_digits_val_eq(pa, pb);
    }
    true
}

/// Appends `k` zero digits, multiplying the value by ten to the `k`.
pub fn digits_shift(v: &mut Vec<u8>, k: usize)
    requires
        all_digits(old(v)@),
    ensures
        final(v)@ == old(v)@ + zero_digits(k as nat),
        all_digits(final(v)@),
        digits_val(final(v)@) == digits_val(old(v)@) * pow10(k as nat),
{
    let mut j: usize = 0;
    while j < k
        invariant
            j <= k,
            v@ =~= old(v)@ + zero_digits(j as nat),
        decreases k - j,
    {
        v.push(0);
        j += 1;
        proof {
            assert(v@ =~= old(v)@ + zero_digits(j as nat));
        }
    }
    proof {
        lemma_digits_val_zeros(k as nat);
        lemma_digits_val_append(old(v)@, zero_digits(k as nat));
    }
}

/// Multiplies a digit string by a single digit, by repeated addition.
pub fn digits_times_digit(a: &Vec<u8>, d: u8) -> (r: Vec<u8>)
    requires
        all_digits(a@),
        d <= 9,
    ensures
        all_digits(r@),
        digits_val(r@) == (d as nat) * digits_val(a@),
{
    let mut acc: Vec<u8> = Vec::new();
    let mut j: u8 = 0;
    while j < d
        invariant
            j <= d,
            all_digits(a@),
            all_digits(acc@),
            digits_val(acc@) == (j as nat) * digits_val(a@),
        decreases d - j,
    {
        let next = digits_plus(&acc, a);
        proof {
            assert((j as nat) * digits_val(a@) + digits_val(a@) == ((j + 1) as nat) * digits_val(
                a@,
            )) by (nonlinear_arith);
        }
        acc = next;
        j += 1;
    }
    acc
}

/// Multiplies two digit strings exactly (schoolbook multiplication).
pub fn digits_times(a: &Vec<u8>, b: &Vec<u8>) -> (r: Vec<u8>)
    requires
        all_digits(a@),
        all_digits(b@),
    ensures
        all_digits(r@),
        digits_val(r@) == digits_val(a@) * digits_val(b@),
{
    let mut acc: Vec<u8> = Vec::new();
    let mut i: usize = 0;
    proof {
        assert(b@.take(0) =~= Seq::<u8>::empty());
        assert(digits_val(a@) * 0 == 0) by (nonlinear_arith);
    }
    while i < b.len()
        invariant
            i <= b@.len(),
            all_digits(a@),
            all_digits(b@),
            all_digits(acc@),
            digits_val(acc@) == digits_val(a@) * digits_val(b@.take(i as int)),
        decreases b@.len() - i,
    {
        let ghost prefix = b@.take(i as int);
        let ghost acc0 = acc@;
        acc.push(0);
        proof {
            lemma_digits_val_push(acc0, 0);
            assert(acc@ == acc0.push(0u8));
        }
        let part = digits_times_digit(a, b[i]);
        let next = digits_plus(&acc, &part);
        proof {
            assert(b@.take(i + 1) =~= prefix.push(b@[i as int]));
            lemma_digits_val_push(prefix, b@[i as int]);
            let x = digits_val(a@);
            let y = digits_val(prefix);
            let dd = b@[i as int] as nat;
            assert((x * y) * 10 + dd * x == x * (y * 10 + dd)) by (nonlinear_arith);
        }
        acc = next;
        i += 1;
    }
    proof {
        assert(b@.take(b@.len() as int) =~= b@);
    }
    acc
}

/// A length text is a nonempty run of digits with at most one decimal point
/// and at least one digit.
pub open spec fn is_length_text(s: Seq<char>) -> bool {
    &&& s.len() >= 1
    &&& {
        ||| (forall|i: int| 0 <= i < s.len() ==> is_digit_char(s[i]))
        ||| (exists|k: int|
            0 <= k < s.len() && s[k] == '.' && s.len() >= 2 && (forall|i: int|
                0 <= i < s.len() && i != k ==> is_digit_char(s[i])))
    }
}

/// A well-formed edge renders to a length text.
pub proof fn lemma_text_is_length(e: Edge)
    requires
        e.wf(),
    ensures
        is_length_text(e.text()),
{
    let t = e.text();
    assert(forall|d: u8| d < 10 ==> is_digit_char(#[trigger] digit_to_char(d)));
    if e.point {
        let k = e.int_part@.len() as int;
        assert(t[k] == '.');
        assert(forall|i: int| 0 <= i < t.len() && i != k ==> is_digit_char(t[i]));
    } else {
        assert(forall|i: int| 0 <= i < t.len() ==> is_digit_char(t[i]));
    }
}

impl Edge {
    /// The combined digit string as a vector.
    pub fn mantissa_vec(&self) -> (r: Vec<u8>)
        ensures
            r@ == self.mantissa(),
    {
        let mut m = self.int_part.clone();
        m.extend_from_slice(self.frac_part.as_slice());
        m
    }

    /// Builds the canonical edge with value `digits(mant) / 10^scale`.
    #[verifier::rlimit(50)]
    pub fn from_parts(mant: Vec<u8>, scale: usize) -> (r: Edge)
        requires
            all_digits(mant@),
        ensures
            r.canonical(),
            value_eq(r.num(), r.scale(), digits_val(mant@), scale as nat),
    {
        let mut m = mant;
        let mut s = scale;
        let ghost n0 = digits_val(mant@);
        // Strip trailing fraction zeros; they carry no value.
        while s > 0 && m.len() > 0 && m[m.len() - 1] == 0
            invariant
                all_digits(m@),
                s <= scale,
                value_eq(digits_val(m@), s as nat, n0, scale as nat),
            decreases s,
        {
            let ghost m0 = m@;
            m.pop();
            proof {
                assert(m0 =~= m@.push(0u8));
                lemma_digits_val_push(m@, 0);
                lemma_value_shift_down(digits_val(m@), s as nat, n0, scale as nat);
            }
            s = s - 1;
        }
        if m.len() == 0 && s > 0 {
            proof {
                lemma_value_zero_any_scale(s as nat, n0, scale as nat);
            }
            s = 0;
        }
        // Split into integer and fraction digits, padding as needed.
        let mut int_part: Vec<u8>;
        let mut frac_part: Vec<u8>;
        if m.len() > s {
            let cut = m.len() - s;
            let ghost mfull = m@;
            frac_part = m.split_off(cut);
            int_part = m;
            proof {
                assert(int_part@ + frac_part@ =~= mfull);
            }
            // Strip superfluous leading zeros of the integer digits.
            while int_part.len() > 1 && int_part[0] == 0
                invariant
                    all_digits(int_part@),
                    all_digits(frac_part@),
                    int_part@.len() >= 1,
                    digits_val(int_part@ + frac_part@) == digits_val(mfull),
                    frac_part@.len() == s,
                decreases int_part@.len(),
            {
                let ghost i0 = int_part@;
                int_part.remove(0);
                proof {
                    lemma_digits_val_strip_zero(i0);
                    assert(i0.skip(1) =~= int_part@);
                    assert(i0 + frac_part@ =~= seq![i0[0]] + (int_part@ + frac_part@));
                    lemma_digits_val_prepend(i0[0], int_part@ + frac_part@);
                }
            }
            proof {
                assert(value_eq(digits_val(mfull), s as nat, n0, scale as nat));
                assert(value_eq(digits_val(int_part@ + frac_part@), s as nat, n0, scale as nat));
                assert(frac_part@.len() == s);
            }
        } else {
            int_part = Vec::new();
            int_part.push(0);
            frac_part = Vec::new();
            let pad = s - m.len();
            let mut j: usize = 0;
            while j < pad
                invariant
                    j <= pad,
                    frac_part@ =~= zero_digits(j as nat),
                decreases pad - j,
            {
                frac_part.push(0);
                proof {
                    assert(frac_part@ =~= zero_digits((j + 1) as nat));
                }
                j += 1;
            }
            frac_part.extend_from_slice(m.as_slice());
            proof {
                assert(frac_part@ =~= zero_digits(pad as nat) + m@);
                lemma_digits_val_zeros(pad as nat);
                lemma_digits_val_append(zero_digits(pad as nat), m@);
                assert(int_part@ =~= seq![0u8]);
                lemma_digits_val_prepend(0, frac_part@);
                assert(int_part@ + frac_part@ =~= seq![0u8] + frac_part@);
                assert(digits_val(int_part@ + frac_part@) == digits_val(m@));
                assert(value_eq(digits_val(int_part@ + frac_part@), s as nat, n0, scale as nat));
                assert(frac_part@.len() == s);
            }
        }
        let point = s > 0;
        let r = Edge { int_part, point, frac_part };
        proof {
            assert(r.mantissa() == r.int_part@ + r.frac_part@);
            assert(r.num() == digits_val(r.int_part@ + r.frac_part@));
            assert(r.scale() == s as nat);
            assert(value_eq(r.num(), r.scale(), n0, scale as nat));
        }
        r
    }

    /// The exact sum of two branch lengths, in canonical form.
    pub fn plus(&self, other: &Edge) -> (r: Edge)
        requires
            self.wf(),
            other.wf(),
    ensures
            r.canonical(),
            value_eq(
                r.num(),
                r.scale(),
                self.num() * pow10(other.scale()) + other.num() * pow10(self.scale()),
                self.scale() + other.scale(),
            ),
    {
        let sa = self.frac_part.len();
        let sb = other.frac_part.len();
        let smax = if sa > sb {
            sa
        } else {
            sb
        };
        let mut ma = self.mantissa_vec();
        let mut mb = other.mantissa_vec();
        digits_shift(&mut ma, smax - sa);
        digits_shift(&mut mb, smax - sb);
        let sum = digits_plus(&ma, &mb);
        let r = Edge::from_parts(sum, smax);
        proof {
            lemma_value_sum_rescale(
                self.num(),
                self.scale(),
                other.num(),
                other.scale(),
                smax as nat,
                r.num(),
                r.scale(),
            );
        }
        r
    }

    /// The exact product of two branch lengths, in canonical form.
    pub fn times(&self, other: &Edge) -> (r: Edge)
        requires
            self.wf(),
            other.wf(),
            self.scale() + other.scale() <= usize::MAX,
        ensures
            r.canonical(),
            value_eq(r.num(), r.scale(), self.num() * other.num(), self.scale() + other.scale()),
    {
        let ma = self.mantissa_vec();
        let mb = other.mantissa_vec();
        let prod = digits_times(&ma, &mb);
        let sa = self.frac_part.len();
        let sb = other.frac_part.len();
        Edge::from_parts(prod, sa + sb)
    }

    /// Whether this length is at most the other, as numbers.
    pub fn le_value(&self, other: &Edge) -> (r: bool)
        requires
            self.wf(),
            other.wf(),
        ensures
            r == value_le(self.num(), self.scale(), other.num(), other.scale()),
    {
        let mut ma = self.mantissa_vec();
        let mut mb = other.mantissa_vec();
        digits_shift(&mut ma, other.frac_part.len());
        digits_shift(&mut mb, self.frac_part.len());
        digits_le_val(&ma, &mb)
    }

    /// Whether this length equals the other, as numbers.
    pub fn value_equals(&self, other: &Edge) -> (r: bool)
        requires
            self.wf(),
            other.wf(),
        ensures
            r == self.same_value(*other),
    {
        let le = self.le_value(other);
        let ge = other.le_value(self);
        le && ge
    }

    /// The whole number `n` as a canonical edge.
    pub fn from_count(n: usize) -> (r: Edge)
        ensures
            r.canonical(),
            r.num() == n as nat,
            r.scale() == 0,
    {
        let mut digits: Vec<u8> = Vec::new();
        let mut x = n;
        proof {
            assert(pow10(0) == 1);
            assert((n as nat) * 1 == n as nat) by (nonlinear_arith);
        }
        while x > 0
            invariant
                all_digits(digits@),
                (x as nat) * pow10(digits@.len()) + digits_val(digits@) == n as nat,
                (x == 0 && digits@.len() > 0) ==> digits@[0] != 0,
            decreases x,
        {
            let d = (x % 10) as u8;
            let ghost d0 = digits@;
            let ghost x0 = x as nat;
            digits.insert(0, d);
            x = x / 10;
            proof {
                assert(digits@ =~= seq![d] + d0);
                lemma_digits_val_prepend(d, d0);
                let p = pow10(d0.len());
                assert(x0 == (x as nat) * 10 + d);
                assert(((x as nat) * 10 + (d as nat)) * p == (x as nat) * (10 * p) + (d as nat)
                    * p) by (nonlinear_arith);
                assert(pow10(d0.len() + 1) == 10 * p);
                assert((x as nat) * (10 * p) == (x as nat) * pow10(d0.len() + 1));
            }
        }
        if digits.len() == 0 {
            let ghost d0 = digits@;
            digits.push(0);
            proof {
                lemma_digits_val_push(d0, 0);
            }
        }
        let r = Edge { int_part: digits, point: false, frac_part: Vec::new() };
        proof {
            assert(r.mantissa() =~= r.int_part@);
        }
        r
    }
}

/// The character that prints a digit value.
pub fn digit_char_of(d: u8) -> (c: char)
    requires
        d < 10,
    ensures
        c == digit_to_char(d),
{
    match d {
        0 => '0',
        1 => '1',
        2 => '2',
        3 => '3',
        4 => '4',
        5 => '5',
        6 => '6',
        7 => '7',
        8 => '8',
        _ => '9',
    }
}

impl Edge {
    /// Renders the edge back to text, exactly as it was written.
    pub fn to_chars(&self) -> (r: Vec<char>)
        requires
            self.wf(),
        ensures
            r@ == self.text(),
    {
        let mut out: Vec<char> = Vec::new();
        let mut i: usize = 0;
        while i < self.int_part.len()
            invariant
                i <= self.int_part@.len(),
                self.wf(),
                out@ =~= digits_text(self.int_part@.take(i as int)),
            decreases self.int_part@.len() - i,
        {
            out.push(digit_char_of(self.int_part[i]));
            i += 1;
            proof {
                assert(out@ =~= digits_text(self.int_part@.take(i as int)));
            }
        }
        proof {
            assert(self.int_part@.take(self.int_part@.len() as int) =~= self.int_part@);
        }
        if self.point {
            out.push('.');
            let ghost mid = out@;
            proof {
                assert(mid =~= digits_text(self.int_part@) + seq!['.']);
            }
            let mut j: usize = 0;
            while j < self.frac_part.len()
                invariant
                    j <= self.frac_part@.len(),
                    self.wf(),
                    mid == digits_text(self.int_part@) + seq!['.'],
                    out@ =~= mid + digits_text(self.frac_part@.take(j as int)),
                decreases self.frac_part@.len() - j,
            {
                out.push(digit_char_of(self.frac_part[j]));
                j += 1;
                proof {
                    assert(out@ =~= mid + digits_text(self.frac_part@.take(j as int)));
                }
            }
            proof {
                assert(self.frac_part@.take(self.frac_part@.len() as int) =~= self.frac_part@);
                assert(out@ =~= self.text());
            }
        }
        out
    }

    /// Parses a run of characters as a branch length.
    ///
    /// Returns the edge exactly as written when the characters form a length
    /// text, and nothing otherwise.
    pub fn parse_chars(v: &Vec<char>) -> (r: Option<Edge>)
        ensures
            r is Some <==> is_length_text(v@),
            r is Some ==> r->Some_0.wf() && r->Some_0.text() == v@ && r->Some_0@ == edge_of_text(
                v@,
            ),
    {
        let mut int_part: Vec<u8> = Vec::new();
        let mut frac_part: Vec<u8> = Vec::new();
        let mut point = false;
        let ghost mut ptpos: int = 0;
        let mut i: usize = 0;
        while i < v.len()
            invariant
                i <= v@.len(),
                all_digits(int_part@),
                all_digits(frac_part@),
                !point ==> frac_part@.len() == 0 && v@.take(i as int) =~= digits_text(int_part@),
                point ==> 0 <= ptpos < i && v@[ptpos] == '.' && v@.take(i as int) =~= digits_text(
                    int_part@,
                ) + seq!['.'] + digits_text(frac_part@) && ptpos == int_part@.len(),
            decreases v@.len() - i,
        {
            let c = v[i];
            if c == '.' {
                if point {
                    // A second point: the text is not a number.
                    proof {
                        lemma_not_length_two_points(v@, ptpos, i as int);
                    }
                    return None;
                }
                point = true;
                proof {
                    ptpos = i as int;
                }
            } else {
                let d: u8 = if c == '0' {
                    0
                } else if c == '1' {
                    1
                } else if c == '2' {
                    2
                } else if c == '3' {
                    3
                } else if c == '4' {
                    4
                } else if c == '5' {
                    5
                } else if c == '6' {
                    6
                } else if c == '7' {
                    7
                } else if c == '8' {
                    8
                } else if c == '9' {
                    9
                } else {
                    // Not a digit and not the point: not a number.
                    proof {
                        lemma_not_length_bad_char(v@, i as int);
                    }
                    return None;
                };
                proof {
                    assert(digit_to_char(d) == c);
                }
                if point {
                    frac_part.push(d);
                } else {
                    int_part.push(d);
                }
            }
            i += 1;
            proof {
                if point {
                    assert(v@.take(i as int) =~= digits_text(int_part@) + seq!['.'] + digits_text(
                        frac_part@,
                    ));
                } else {
                    assert(v@.take(i as int) =~= digits_text(int_part@));
                }
            }
        }
        if int_part.len() == 0 && frac_part.len() == 0 {
            // No digits at all: an empty text or a lone point.
            proof {
                assert(v@.take(v@.len() as int) =~= v@);
                if is_length_text(v@) {
                    if point {
                        assert(v@ =~= seq!['.']);
                    } else {
                        assert(v@.len() == 0);
                    }
                }
            }
            return None;
        }
        let e = Edge { int_part, point, frac_part };
        proof {
            assert(v@.take(v@.len() as int) =~= v@);
            assert(e.text() == v@);
            lemma_text_is_length(e);
            lemma_edge_of_text_unique(e@, v@);
        }
        Some(e)
    }
}

/// A text with two points at distinct positions is not a length text.
proof fn lemma_not_length_two_points(s: Seq<char>, p1: int, p2: int)
    requires
        0 <= p1 < s.len(),
        0 <= p2 < s.len(),
        p1 != p2,
        s[p1] == '.',
        s[p2] == '.',
    ensures
        !is_length_text(s),
{
    assert(!is_digit_char('.'));
}

/// A text with a character that is neither a digit nor a point is not a
/// length text.
proof fn lemma_not_length_bad_char(s: Seq<char>, p: int)
    requires
        0 <= p < s.len(),
        s[p] != '.',
        !is_digit_char(s[p]),
    ensures
        !is_length_text(s),
{
}

/// A zero numerator keeps value zero at any scale.
proof fn lemma_value_zero_any_scale(s: nat, n0: nat, s0: nat)
    requires
        value_eq(0, s, n0, s0),
    ensures
        value_eq(0, 0, n0, s0),
{
    lemma_pow10_pos(s0);
    lemma_pow10_pos(s);
    assert(0 * pow10(s0) == 0) by (nonlinear_arith);
    assert(n0 * pow10(s) == 0);
    assert(n0 == 0) by (nonlinear_arith)
        requires
            n0 * pow10(s) == 0,
            pow10(s) >= 1,
    ;
    assert(n0 * pow10(0) == 0);
}

/// Dividing numerator and scale by ten keeps the value.
proof fn lemma_value_shift_down(m: nat, s: nat, n0: nat, s0: nat)
    requires
        s >= 1,
        value_eq(m * 10, s, n0, s0),
    ensures
        value_eq(m, (s - 1) as nat, n0, s0),
{
    assert(pow10(s) == 10 * pow10((s - 1) as nat));
    assert((m * 10) * pow10(s0) == m * pow10(s0) * 10) by (nonlinear_arith);
    assert(n0 * (10 * pow10((s - 1) as nat)) == (n0 * pow10((s - 1) as nat)) * 10)
        by (nonlinear_arith);
    assert(m * pow10(s0) * 10 == (n0 * pow10((s - 1) as nat)) * 10);
    assert(m * pow10(s0) == n0 * pow10((s - 1) as nat)) by (nonlinear_arith)
        requires
            m * pow10(s0) * 10 == (n0 * pow10((s - 1) as nat)) * 10,
    ;
}

/// Relates a sum computed at the common scale to the value-level sum.
proof fn lemma_value_sum_rescale(na: nat, sa: nat, nb: nat, sb: nat, smax: nat, rn: nat, rs: nat)
    requires
        smax == if sa > sb {
            sa
        } else {
            sb
        },
        value_eq(rn, rs, na * pow10((smax - sa) as nat) + nb * pow10((smax - sb) as nat), smax),
    ensures
        value_eq(rn, rs, na * pow10(sb) + nb * pow10(sa), sa + sb),
{
    let da = (smax - sa) as nat;
    let db = (smax - sb) as nat;
    let k = (sa + sb - smax) as nat;
    lemma_pow10_adds(da, k);
    lemma_pow10_adds(db, k);
    lemma_pow10_adds(smax, k);
    assert(da + k == sb);
    assert(db + k == sa);
    // Multiply both sides of the hypothesis by ten to the k.
    let lhs = rn * pow10(smax);
    let rhs = (na * pow10(da) + nb * pow10(db)) * pow10(rs);
    assert(lhs == rhs);
    assert(lhs * pow10(k) == rhs * pow10(k));
    assert(rn * pow10(smax) * pow10(k) == rn * (pow10(smax) * pow10(k))) by (nonlinear_arith);
    assert((na * pow10(da) + nb * pow10(db)) * pow10(rs) * pow10(k) == (na * (pow10(da) * pow10(k))
        + nb * (pow10(db) * pow10(k))) * pow10(rs)) by (nonlinear_arith);
}

/// Ten to a larger power is at least ten to a smaller one.
proof fn lemma_pow10_mono(a: nat, b: nat)
    requires
        a <= b,
    ensures
        pow10(a) <= pow10(b),
{
    lemma_pow10_adds(a, (b - a) as nat);
    lemma_pow10_pos((b - a) as nat);
    assert(pow10(a) * 1 <= pow10(a) * pow10((b - a) as nat)) by (nonlinear_arith)
        requires
            pow10((b - a) as nat) >= 1,
            pow10(a) >= 0,
    ;
}

/// A digit string that starts with a nonzero digit is at least ten to the
/// power of its remaining length.
proof fn lemma_digits_val_lower(s: Seq<u8>)
    requires
        all_digits(s),
        s.len() >= 1,
        s[0] != 0,
    ensures
        digits_val(s) >= pow10((s.len() - 1) as nat),
    decreases s.len(),
{
    if s.len() == 1 {
        assert(s.drop_last() =~= Seq::<u8>::empty());
        assert(digits_val(s.drop_last()) == 0);
        assert(s.last() == s[0]);
        assert(digits_val(s) == 0 * 10 + s[0]);
        assert(pow10(0) == 1);
    } else {
        let s0 = s.drop_last();
        assert(s0[0] == s[0]);
        lemma_digits_val_lower(s0);
        assert(digits_val(s0) * 10 >= pow10((s0.len() - 1) as nat) * 10) by (nonlinear_arith)
            requires
                digits_val(s0) >= pow10((s0.len() - 1) as nat),
        ;
        assert(pow10((s.len() - 1) as nat) == 10 * pow10((s0.len() - 1) as nat));
    }
}

/// Digit strings of one length with one value are the same string.
proof fn lemma_digits_unique_same_len(s: Seq<u8>, t: Seq<u8>)
    requires
        all_digits(s),
        all_digits(t),
        s.len() == t.len(),
        digits_val(s) == digits_val(t),
    ensures
        s == t,
    decreases s.len(),
{
    if s.len() == 0 {
        assert(s =~= t);
    } else {
        let s0 = s.drop_last();
        let t0 = t.drop_last();
        // The last digits agree, as the remainders of one number by ten.
        assert(digits_val(s0) * 10 + s.last() == digits_val(t0) * 10 + t.last());
        assert(s.last() == t.last() && digits_val(s0) == digits_val(t0)) by (nonlinear_arith)
            requires
                digits_val(s0) * 10 + s.last() == digits_val(t0) * 10 + t.last(),
                s.last() < 10,
                t.last() < 10,
        ;
        lemma_digits_unique_same_len(s0, t0);
        assert forall|i: int| 0 <= i < s.len() implies s[i] == t[i] by {
            if i < s.len() - 1 {
                assert(s[i] == s0[i]);
                assert(t[i] == t0[i]);
            } else {
                assert(s[i] == s.last());
                assert(t[i] == t.last());
            }
        }
        assert(s =~= t);
    }
}

/// Digit strings without superfluous leading zeros that have one value are
/// the same string.
proof fn lemma_digits_unique_normalized(s: Seq<u8>, t: Seq<u8>)
    requires
        all_digits(s),
        all_digits(t),
        s.len() >= 1,
        t.len() >= 1,
        s.len() > 1 ==> s[0] != 0,
        t.len() > 1 ==> t[0] != 0,
        digits_val(s) == digits_val(t),
    ensures
        s == t,
{
    // Equal values force equal lengths: a longer normalized string is
    // strictly larger than any shorter one.
    if s.len() < t.len() {
        lemma_digits_val_bound(s);
        lemma_digits_val_lower(t);
        lemma_pow10_mono(s.len(), (t.len() - 1) as nat);
        assert(false);
    }
    if t.len() < s.len() {
        lemma_digits_val_bound(t);
        lemma_digits_val_lower(s);
        lemma_pow10_mono(t.len(), (s.len() - 1) as nat);
        assert(false);
    }
    lemma_digits_unique_same_len(s, t);
}

/// Law: the canonical written form of a branch length is unique. Two
/// canonical edges that denote the same number are the same edge, so every
/// computed length has exactly one canonical result.
pub proof fn lemma_canonical_value_unique(a: EdgeView, b: EdgeView)
    requires
        a.canonical(),
        b.canonical(),
        a.same_value(b),
    ensures
        a == b,
{
    let sa = a.scale();
    let sb = b.scale();
    lemma_pow10_pos(sa);
    lemma_pow10_pos(sb);
    // The scales agree: a higher scale would put a zero at the end of the
    // other side's fraction digits, which canonical form forbids.
    lemma_scale_not_smaller(a, b);
    lemma_scale_not_smaller(b, a);
    assert(sa == sb);
    assert(a.num() * pow10(sa) == b.num() * pow10(sa));
    assert(a.num() == b.num()) by (nonlinear_arith)
        requires
            a.num() * pow10(sa) == b.num() * pow10(sa),
            pow10(sa) >= 1,
    ;
    // Split the one mantissa value into its integer and fraction digits.
    lemma_digits_val_append(a.int_part, a.frac_part);
    lemma_digits_val_append(b.int_part, b.frac_part);
    lemma_digits_val_bound(a.frac_part);
    lemma_digits_val_bound(b.frac_part);
    let p = pow10(sa);
    assert(digits_val(a.int_part) == digits_val(b.int_part) && digits_val(a.frac_part)
        == digits_val(b.frac_part)) by (nonlinear_arith)
        requires
            digits_val(a.int_part) * p + digits_val(a.frac_part) == digits_val(b.int_part) * p
                + digits_val(b.frac_part),
            digits_val(a.frac_part) < p,
            digits_val(b.frac_part) < p,
    ;
    lemma_digits_unique_normalized(a.int_part, b.int_part);
    lemma_digits_unique_same_len(a.frac_part, b.frac_part);
    assert(a =~= b);
}

/// A canonical edge cannot have a strictly smaller scale than another
/// canonical edge with the same value: the larger scale's last fraction
/// digit would have to be a zero.
proof fn lemma_scale_not_smaller(a: EdgeView, b: EdgeView)
    requires
        a.canonical(),
        b.canonical(),
        a.same_value(b),
    ensures
        a.scale() >= b.scale(),
{
    if a.scale() >= b.scale() {
        return ;
    }
    let sa = a.scale();
    let sb = b.scale();
    lemma_pow10_pos(sa);
    // b.num() is a.num() times a positive power of ten, so it ends in zero.
    lemma_pow10_adds((sb - sa) as nat, sa);
    let k = pow10((sb - sa) as nat);
    assert(a.num() * (k * pow10(sa)) == (a.num() * k) * pow10(sa)) by (nonlinear_arith);
    assert((a.num() * k) * pow10(sa) == b.num() * pow10(sa));
    assert(a.num() * k == b.num()) by (nonlinear_arith)
        requires
            (a.num() * k) * pow10(sa) == b.num() * pow10(sa),
            pow10(sa) >= 1,
    ;
    assert(k == 10 * pow10((sb - sa - 1) as nat));
    // The mantissa of b ends in its last fraction digit, which is not zero.
    let m = b.mantissa();
    assert(m.len() > 0);
    assert(m.last() == b.frac_part.last());
    assert(m.last() != 0);
    assert(digits_val(m) == digits_val(m.drop_last()) * 10 + m.last());
    assert(a.num() * (10 * pow10((sb - sa - 1) as nat)) == (a.num() * pow10(
        (sb - sa - 1) as nat,
    )) * 10) by (nonlinear_arith);
    assert((a.num() * pow10((sb - sa - 1) as nat)) * 10 == digits_val(m.drop_last()) * 10
        + m.last());
    assert(m.last() == 0) by (nonlinear_arith)
        requires
            (a.num() * pow10((sb - sa - 1) as nat)) * 10 == digits_val(m.drop_last()) * 10
                + m.last(),
            m.last() < 10,
    ;
    assert(false);
}

} // verus!
