use vstd::prelude::*;

verus! {

/// A decimal digit.
pub open spec fn is_digit(c: char) -> bool {
    '0' as int <= c as int <= '9' as int
}

/// The numeric value of a decimal digit.
pub open spec fn digit_val(c: char) -> nat {
    (c as int - '0' as int) as nat
}

/// Index of the first occurrence of `ch` in `s`, or `s.len()` when absent.
pub open spec fn first_ch(s: Seq<char>, ch: char) -> nat
    decreases s.len(),
{
    if s.len() == 0 {
        0
    } else if s[0] == ch {
        0
    } else {
        1 + first_ch(s.drop_first(), ch)
    }
}

pub proof fn lemma_first_ch_le_len(s: Seq<char>, ch: char)
    ensures
        first_ch(s, ch) <= s.len(),
    decreases s.len(),
{
    if s.len() > 0 && s[0] != ch {
        lemma_first_ch_le_len(s.drop_first(), ch);
    }
}

/// `first_ch` is the scanning result: if nothing before `d` matches and `d`
/// is either the end or a match, the first occurrence is at `d`.
pub proof fn lemma_first_ch_at(s: Seq<char>, ch: char, d: int)
    requires
        0 <= d <= s.len(),
        forall|m: int| 0 <= m < d ==> s[m] != ch,
        d == s.len() || s[d] == ch,
    ensures
        first_ch(s, ch) == d,
    decreases s.len(),
{
    if s.len() > 0 && s[0] != ch {
        lemma_first_ch_at(s.drop_first(), ch, d - 1);
    }
}

/// The component before the first dash: `"0-beta"` reads as `"0"`.  A
/// component with no dash is kept whole.
pub open spec fn dash_prefix(c: Seq<char>) -> Seq<char> {
    let k: nat = first_ch(c, '-');
    if k >= c.len() {
        c
    } else {
        c.subrange(0, k as int)
    }
}

/// The dot-separated components of a version string, in order.
pub open spec fn split_dots(s: Seq<char>) -> Seq<Seq<char>>
    decreases s.len(),
{
    let k: nat = first_ch(s, '.');
    if k >= s.len() {
        seq![s]
    } else {
        seq![s.subrange(0, k as int)] + split_dots(s.subrange(k as int + 1, s.len() as int))
    }
}

/// The numeric reading of a digit string, most significant digit first.
pub open spec fn str_to_nat(p: Seq<char>) -> nat
    decreases p.len(),
{
    if p.len() == 0 {
        0
    } else {
        str_to_nat(p.drop_last()) * 10 + digit_val(p.last())
    }
}

/// The numeric value of one version component: digits of the part before
/// any dash qualifier.
pub open spec fn comp_val(c: Seq<char>) -> nat {
    str_to_nat(dash_prefix(c))
}

/// The sequence of component values of a dotted version string.
pub open spec fn version_nums(s: Seq<char>) -> Seq<nat> {
    split_dots(s).map_values(|c: Seq<char>| comp_val(c))
}

/// A version component the comparator accepts: before any dash qualifier
/// there is at least one digit and nothing else, and no more digits than a
/// machine word holds.
pub open spec fn valid_component(c: Seq<char>) -> bool {
    let p = dash_prefix(c);
    &&& 1 <= p.len() <= 19
    &&& forall|k: int| 0 <= k < p.len() ==> is_digit(#[trigger] p[k])
}

/// A version string the comparator accepts: every dot-separated component
/// is valid.
pub open spec fn valid_version(s: Seq<char>) -> bool {
    forall|idx: int|
        0 <= idx < split_dots(s).len() ==> valid_component(#[trigger] split_dots(s)[idx])
}

/// Component at `i`, reading missing trailing components as zero.
pub open spec fn padded(x: Seq<nat>, i: int) -> nat {
    if 0 <= i < x.len() {
        x[i]
    } else {
        0
    }
}

/// Lexicographic strictly-greater comparison of component sequences from
/// position `i` on, with missing trailing components read as zero.
pub open spec fn gt_lex_from(x: Seq<nat>, y: Seq<nat>, i: int) -> bool
    decreases (if x.len() > y.len() {
        x.len()
    } else {
        y.len()
    }) - i,
{
    let m: int = if x.len() > y.len() {
        x.len() as int
    } else {
        y.len() as int
    };
    if i < 0 || i >= m {
        false
    } else if padded(x, i) != padded(y, i) {
        padded(x, i) > padded(y, i)
    } else {
        gt_lex_from(x, y, i + 1)
    }
}

/// What the version comparator decides: `a` is strictly newer than `b`.
/// Components are compared numerically left to right; the first difference
/// decides; missing trailing components count as zero.
pub open spec fn more_recent(a: Seq<char>, b: Seq<char>) -> bool {
    gt_lex_from(version_nums(a), version_nums(b), 0)
}

/// Powers of ten, for bounding parsed component values.
pub open spec fn pow10(n: nat) -> nat
    decreases n,
{
    if n == 0 {
        1
    } else {
        10 * pow10((n - 1) as nat)
    }
}

pub proof fn lemma_pow10_mono(a: nat, b: nat)
    requires
        a <= b,
    ensures
        pow10(a) <= pow10(b),
    decreases b,
{
    if a < b {
        lemma_pow10_mono(a, (b - 1) as nat);
        assert(pow10(b) == 10 * pow10((b - 1) as nat));
    }
}

/// A digit string of length `n` reads as a value below `pow10(n)`.
pub proof fn lemma_str_to_nat_bound(p: Seq<char>)
    requires
        forall|k: int| 0 <= k < p.len() ==> is_digit(#[trigger] p[k]),
    ensures
        str_to_nat(p) < pow10(p.len()),
    decreases p.len(),
{
    if p.len() > 0 {
        lemma_str_to_nat_bound(p.drop_last());
        assert(digit_val(p.last()) <= 9);
        assert(pow10(p.len()) == 10 * pow10((p.len() - 1) as nat));
    }
}

pub proof fn lemma_pow10_19_fits()
    ensures
        pow10(19) < 0x1_0000_0000_0000_0000,
{
    reveal_with_fuel(pow10, 20);
    assert(pow10(19) == 10_000_000_000_000_000_000);
}

/// The view of a parsed component vector as mathematical numbers.
pub open spec fn nums_of(r: Seq<u64>) -> Seq<nat> {
    r.map_values(|v: u64| v as nat)
}

/// Dotted version strings compared by the upgrade mode: newer-than,
/// splitting into numeric components, and dropping a dash qualifier.
pub trait Versioning {
    /// The character sequence of the version string the value stands for.
    spec fn version_text(&self) -> Seq<char>;

    /// True iff this version is strictly newer than `than`, comparing
    /// numeric components left to right with missing components as zero.
    fn is_more_recent(&self, than: &str) -> (r: bool)
        requires
            valid_version(self.version_text()),
            valid_version(than@),
        ensures
            r == more_recent(self.version_text(), than@),
    ;

    /// The numeric components of the version string, in order.
    fn split_dot_version(&self) -> (r: Vec<u64>)
        requires
            valid_version(self.version_text()),
        ensures
            nums_of(r@) == version_nums(self.version_text()),
    ;

    /// The version string cut at its first dash.
    fn strip_dash_variant(&self) -> (r: String)
        ensures
            r@ == dash_prefix(self.version_text()),
    ;
}

impl Versioning for String {
    open spec fn version_text(&self) -> Seq<char> {
        self@
    }

    fn is_more_recent(&self, than: &str) -> (r: bool) {
        is_more_recent_str(self.as_str(), than)
    }

    fn split_dot_version(&self) -> (r: Vec<u64>) {
        split_version(self.as_str())
    }

    fn strip_dash_variant(&self) -> (r: String) {
        strip_dash_str(self.as_str())
    }
}

/// Finds the first occurrence of `ch` at or after `from`, scanning to the
/// end of `s`; returns `s`'s length when absent.
pub(crate) fn scan_for(s: &str, from: usize, ch: char) -> (r: usize)
    requires
        from <= s@.len(),
    ensures
        from <= r <= s@.len(),
        forall|m: int| from <= m < r ==> s@[m] != ch,
        r == s@.len() || s@[r as int] == ch,
{
    let n = s.unicode_len();
    let mut i: usize = from;
    while i < n
        invariant
            from <= i <= n,
            n == s@.len(),
            forall|m: int| from <= m < i ==> s@[m] != ch,
        decreases n - i,
    {
        if s.get_char(i) == ch {
            return i;
        }
        i = i + 1;
    }
    i
}

/// Cuts `s` at its first dash, keeping the part before it.
pub fn strip_dash_str(s: &str) -> (r: String)
    ensures
        r@ == dash_prefix(s@),
{
    let d = scan_for(s, 0, '-');
    proof {
        lemma_first_ch_at(s@, '-', d as int);
    }
    let cut = s.substring_char(0, d);
    let r = String::from_str(cut);
    proof {
        if d == s@.len() {
            assert(s@.subrange(0, d as int) =~= s@);
        }
    }
    r
}

/// Reads the digits of `s` in `[lo, hi)` as a number.
fn parse_digits(s: &str, lo: usize, hi: usize) -> (r: u64)
    requires
        lo <= hi <= s@.len(),
        forall|k: int| lo <= k < hi ==> is_digit(#[trigger] s@[k]),
        hi - lo <= 19,
    ensures
        r as nat == str_to_nat(s@.subrange(lo as int, hi as int)),
{
    let mut acc: u64 = 0;
    let mut j: usize = lo;
    proof {
        assert(s@.subrange(lo as int, lo as int) =~= Seq::<char>::empty());
    }
    while j < hi
        invariant
            lo <= j <= hi <= s@.len(),
            hi - lo <= 19,
            forall|k: int| lo <= k < hi ==> is_digit(#[trigger] s@[k]),
            acc as nat == str_to_nat(s@.subrange(lo as int, j as int)),
        decreases hi - j,
    {
        let c = s.get_char(j);
        let cu = c as u32;
        proof {
            assert(is_digit(s@[j as int]));
            assert(cu as int == c as int);
        }
        let dv = (cu - 48) as u64;
        proof {
            let pref = s@.subrange(lo as int, j as int);
            let ext = s@.subrange(lo as int, j as int + 1);
            assert(ext.drop_last() =~= pref);
            assert(ext.last() == s@[j as int]);
            assert(forall|k: int| 0 <= k < pref.len() ==> is_digit(#[trigger] pref[k]));
            lemma_str_to_nat_bound(pref);
            lemma_pow10_mono((j - lo) as nat, 18);
            lemma_pow10_19_fits();
            assert(pow10(19) == 10 * pow10(18));
            assert(acc as nat * 10 + digit_val(s@[j as int]) < pow10(19));
            assert(dv as nat == digit_val(s@[j as int]));
        }
        acc = acc * 10 + dv;
        j = j + 1;
    }
    acc
}

/// Splits a version string on dots and reads each component's numeric
/// value, ignoring a dash qualifier inside a component.
pub fn split_version(s: &str) -> (r: Vec<u64>)
    requires
        valid_version(s@),
    ensures
        nums_of(r@) == version_nums(s@),
{
    let n = s.unicode_len();
    let mut r: Vec<u64> = Vec::new();
    let mut i: usize = 0;
    let mut done = false;
    proof {
        assert(s@.subrange(0, n as int) =~= s@);
        assert(nums_of(r@) + version_nums(s@) =~= version_nums(s@));
    }
    while !done
        invariant
            0 <= i <= n,
            n == s@.len(),
            !done ==> nums_of(r@) + split_dots(s@.subrange(i as int, n as int)).map_values(
                |c: Seq<char>| comp_val(c),
            ) =~= version_nums(s@),
            !done ==> forall|idx: int|
                0 <= idx < split_dots(s@.subrange(i as int, n as int)).len()
                    ==> valid_component(
                    #[trigger] split_dots(s@.subrange(i as int, n as int))[idx],
                ),
            done ==> nums_of(r@) == version_nums(s@),
        decreases (if done {
            0int
        } else {
            n - i + 1
        }),
    {
        let k = scan_for(s, i, '.');
        let ghost rest = s@.subrange(i as int, n as int);
        let ghost comp = s@.subrange(i as int, k as int);
        let ghost f = |c: Seq<char>| comp_val(c);
        proof {
            lemma_first_ch_at(rest, '.', k - i);
            assert(rest.subrange(0, k - i) =~= comp);
            if k < n {
                assert(rest.subrange(k - i + 1, rest.len() as int) =~= s@.subrange(
                    k as int + 1,
                    n as int,
                ));
                assert(split_dots(rest) =~= seq![comp] + split_dots(
                    s@.subrange(k as int + 1, n as int),
                ));
            } else {
                assert(comp =~= rest);
                assert(split_dots(rest) =~= seq![rest]);
            }
            assert(split_dots(rest)[0] == comp);
            assert(valid_component(comp));
        }
        let hi = parse_component(s, i, k);
        r.push(hi);
        proof {
            if k < n {
                let tail = split_dots(s@.subrange(k as int + 1, n as int));
                assert((seq![comp] + tail).map_values(f) =~= seq![f(comp)] + tail.map_values(f));
                assert(nums_of(r@) =~= nums_of(r@.drop_last()) + seq![f(comp)]);
                assert forall|idx: int| 0 <= idx < tail.len() implies valid_component(
                    #[trigger] tail[idx],
                ) by {
                    assert(split_dots(rest)[idx + 1] == tail[idx]);
                }
            } else {
                assert(split_dots(rest).map_values(f) =~= seq![f(rest)]);
                assert(nums_of(r@) =~= nums_of(r@.drop_last()) + seq![f(rest)]);
            }
        }
        if k < n {
            i = k + 1;
        } else {
            done = true;
        }
    }
    r
}

/// Reads the numeric value of the version component `[lo, k)` of `s`,
/// where `k` is the position of the following dot or the end.
fn parse_component(s: &str, lo: usize, k: usize) -> (r: u64)
    requires
        lo <= k <= s@.len(),
        valid_component(s@.subrange(lo as int, k as int)),
    ensures
        r as nat == comp_val(s@.subrange(lo as int, k as int)),
{
    let ghost comp = s@.subrange(lo as int, k as int);
    let d0 = scan_for(s, lo, '-');
    let d = if d0 > k {
        k
    } else {
        d0
    };
    proof {
        lemma_first_ch_at(comp, '-', d - lo);
        let p = dash_prefix(comp);
        assert(p =~= s@.subrange(lo as int, d as int));
        assert(p.len() == d - lo);
        assert forall|kk: int| lo <= kk < d implies is_digit(#[trigger] s@[kk]) by {
            assert(is_digit(p[kk - lo]));
        }
    }
    parse_digits(s, lo, d)
}

/// True iff the version string `a` is strictly newer than `b`.
pub fn is_more_recent_str(a: &str, b: &str) -> (r: bool)
    requires
        valid_version(a@),
        valid_version(b@),
    ensures
        r == more_recent(a@, b@),
{
    let x = split_version(a);
    let y = split_version(b);
    let n = if x.len() > y.len() {
        x.len()
    } else {
        y.len()
    };
    let mut i: usize = 0;
    while i < n
        invariant
            0 <= i <= n,
            n == (if x@.len() > y@.len() {
                x@.len()
            } else {
                y@.len()
            }),
            nums_of(x@) == version_nums(a@),
            nums_of(y@) == version_nums(b@),
            gt_lex_from(nums_of(x@), nums_of(y@), 0) == gt_lex_from(nums_of(x@), nums_of(y@), i as int),
        decreases n - i,
    {
        let av: u64 = if i < x.len() {
            x[i]
        } else {
            0
        };
        let bv: u64 = if i < y.len() {
            y[i]
        } else {
            0
        };
        proof {
            assert(padded(nums_of(x@), i as int) == av as nat);
            assert(padded(nums_of(y@), i as int) == bv as nat);
        }
        if av != bv {
            return av > bv;
        }
        i = i + 1;
    }
    false
}

} // verus!
