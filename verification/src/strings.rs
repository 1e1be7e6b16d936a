use vstd::prelude::*;

verus! {

/// Whitespace characters that [`stripped`] removes from both ends of a
/// string: space, tab, line feed and carriage return.
pub open spec fn is_space_char(c: char) -> bool {
    c == ' ' || c == '\t' || c == '\n' || c == '\r'
}

/// `s` with leading whitespace removed.
pub open spec fn trimmed_front(s: Seq<char>) -> Seq<char>
    decreases s.len(),
{
    if s.len() > 0 && is_space_char(s[0]) {
        trimmed_front(s.drop_first())
    } else {
        s
    }
}

/// `s` with trailing whitespace removed.
pub open spec fn trimmed_back(s: Seq<char>) -> Seq<char>
    decreases s.len(),
{
    if s.len() > 0 && is_space_char(s.last()) {
        trimmed_back(s.drop_last())
    } else {
        s
    }
}

/// `s` with every double-quote character removed.
pub open spec fn without_quotes(s: Seq<char>) -> Seq<char>
    decreases s.len(),
{
    if s.len() == 0 {
        Seq::<char>::empty()
    } else if s.last() == '"' {
        without_quotes(s.drop_last())
    } else {
        without_quotes(s.drop_last()).push(s.last())
    }
}

/// What [`StringExtension::strip`] returns: the string trimmed of
/// surrounding whitespace, with all double quotes removed.
pub open spec fn stripped(s: Seq<char>) -> Seq<char> {
    without_quotes(trimmed_back(trimmed_front(s)))
}

/// Trimming the front keeps a suffix: if the first `a` characters are
/// whitespace and the character at `a` (if any) is not, the result is
/// exactly the suffix from `a`.
proof fn lemma_trimmed_front_is_suffix(s: Seq<char>, a: int)
    requires
        0 <= a <= s.len(),
        forall|k: int| 0 <= k < a ==> is_space_char(s[k]),
        a == s.len() || !is_space_char(s[a]),
    ensures
        trimmed_front(s) == s.subrange(a, s.len() as int),
    decreases a,
{
    if a == 0 {
        assert(s.subrange(0, s.len() as int) =~= s);
    } else {
        let t = s.drop_first();
        assert(is_space_char(s[0]));
        lemma_trimmed_front_is_suffix(t, a - 1);
        assert(t.subrange(a - 1, t.len() as int) =~= s.subrange(a, s.len() as int));
    }
}

/// Trimming the back keeps a prefix: if every character from `b` on is
/// whitespace and the character at `b - 1` (if any) is not, the result is
/// exactly the prefix up to `b`.
proof fn lemma_trimmed_back_is_prefix(s: Seq<char>, b: int)
    requires
        0 <= b <= s.len(),
        forall|k: int| b <= k < s.len() ==> is_space_char(s[k]),
        b == 0 || !is_space_char(s[b - 1]),
    ensures
        trimmed_back(s) == s.subrange(0, b),
    decreases s.len(),
{
    if b == s.len() {
        assert(s.subrange(0, b) =~= s);
    } else {
        let t = s.drop_last();
        assert(is_space_char(s.last()));
        lemma_trimmed_back_is_prefix(t, b);
        assert(t.subrange(0, b) =~= s.subrange(0, b));
    }
}

/// A string value together with the way [`stripped`] reads it; the
/// meta-repository stores project paths and package names in this
/// normalised form.
pub trait StringExtension {
    /// The character sequence the implementing value stands for.
    spec fn text(&self) -> Seq<char>;

    /// The value trimmed of surrounding whitespace with all double quotes
    /// removed.
    fn strip(&self) -> (r: String)
        ensures
            r@ == stripped(self.text()),
    ;
}

impl StringExtension for String {
    open spec fn text(&self) -> Seq<char> {
        self@
    }

    fn strip(&self) -> (r: String) {
        strip_str(self.as_str())
    }
}

/// Trims surrounding whitespace from `s` and removes every double quote.
pub fn strip_str(s: &str) -> (r: String)
    ensures
        r@ == stripped(s@),
{
    let n = s.unicode_len();
    let mut a: usize = 0;
    while a < n && is_space_exec(s.get_char(a))
        invariant
            0 <= a <= n,
            n == s@.len(),
            forall|k: int| 0 <= k < a ==> is_space_char(s@[k]),
        decreases n - a,
    {
        a = a + 1;
    }
    let mut b: usize = n;
    while b > a && is_space_exec(s.get_char(b - 1))
        invariant
            a <= b <= n,
            n == s@.len(),
            a == n || !is_space_char(s@[a as int]),
            forall|k: int| 0 <= k < a ==> is_space_char(s@[k]),
            forall|k: int| b <= k < n ==> is_space_char(s@[k]),
        decreases b,
    {
        b = b - 1;
    }
    proof {
        lemma_trimmed_front_is_suffix(s@, a as int);
        let t = s@.subrange(a as int, n as int);
        lemma_trimmed_back_is_prefix(t, b - a);
        assert(t.subrange(0, b - a) =~= s@.subrange(a as int, b as int));
    }
    let mut r = String::new();
    proof {
        assert(s@.subrange(a as int, a as int) =~= Seq::<char>::empty());
    }
    let mut i: usize = a;
    while i < b
        invariant
            a <= i <= b <= n,
            n == s@.len(),
            r@ == without_quotes(s@.subrange(a as int, i as int)),
        decreases b - i,
    {
        let c = s.get_char(i);
        if c != '"' {
            let piece = s.substring_char(i, i + 1);
            r.append(piece);
            proof {
                assert(piece@ =~= seq![s@[i as int]]);
            }
        }
        proof {
            let before = s@.subrange(a as int, i as int);
            let after = s@.subrange(a as int, i as int + 1);
            assert(after.drop_last() =~= before);
            assert(after.last() == s@[i as int]);
            assert(without_quotes(before).push(s@[i as int]) =~= without_quotes(before)
                + seq![s@[i as int]]);
        }
        i = i + 1;
    }
    r
}

/// True iff the two string slices hold the same characters.
pub fn str_eq(a: &str, b: &str) -> (r: bool)
    ensures
        r == (a@ == b@),
{
    let sa = String::from_str(a);
    let sb = String::from_str(b);
    sa.eq(&sb)
}

/// Executable twin of [`is_space_char`].
pub fn is_space_exec(c: char) -> (r: bool)
    ensures
        r == is_space_char(c),
{
    c == ' ' || c == '\t' || c == '\n' || c == '\r'
}

} // verus!
