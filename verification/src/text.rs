//! Character and string helpers shared by the dictionary, decoder and
//! analyzer modules.  All reasoning about words happens over `Seq<char>`.
use vstd::prelude::*;
use vstd::string::StrSliceExecFns;

verus! {

// ---------------------------------------------------------------------------
// Character classes
// ---------------------------------------------------------------------------

pub open spec fn is_digit_c(c: char) -> bool {
    48 <= c as u32 && c as u32 <= 57
}

pub open spec fn is_upper_c(c: char) -> bool {
    65 <= c as u32 && c as u32 <= 90
}

pub open spec fn is_ws_c(c: char) -> bool {
    c as u32 == 32 || (9 <= c as u32 && c as u32 <= 13)
}

/// ASCII case folding of one character.
pub open spec fn lower_c(c: char) -> char {
    if is_upper_c(c) {
        ((c as u32 + 32) as u8) as char
    } else {
        c
    }
}

/// ASCII case folding of a word.
pub open spec fn lower_seq(s: Seq<char>) -> Seq<char> {
    s.map_values(|c: char| lower_c(c))
}

/// Folding twice folds once: a folded word is a fixed point.
pub proof fn lemma_lower_idempotent(s: Seq<char>)
    ensures
        lower_seq(lower_seq(s)) == lower_seq(s),
{
    assert forall|i: int| 0 <= i < s.len() implies lower_c(lower_c(s[i])) == lower_c(s[i]) by {
        let c = s[i];
        if is_upper_c(c) {
            let d = lower_c(c);
            assert(d == ((c as u32 + 32) as u8) as char);
            assert(d as u32 == c as u32 + 32);
            assert(!is_upper_c(d));
        }
    }
    assert(lower_seq(lower_seq(s)) =~= lower_seq(s));
}

pub fn is_digit_char(c: char) -> (r: bool)
    ensures
        r == is_digit_c(c),
{
    let u = c as u32;
    48 <= u && u <= 57
}

pub fn is_upper_char(c: char) -> (r: bool)
    ensures
        r == is_upper_c(c),
{
    let u = c as u32;
    65 <= u && u <= 90
}

pub fn is_ws_char(c: char) -> (r: bool)
    ensures
        r == is_ws_c(c),
{
    let u = c as u32;
    u == 32 || (9 <= u && u <= 13)
}

pub fn lower_char(c: char) -> (r: char)
    ensures
        r == lower_c(c),
{
    let u = c as u32;
    if 65 <= u && u <= 90 {
        ((u + 32) as u8) as char
    } else {
        c
    }
}

pub fn lower_chars(v: &Vec<char>) -> (r: Vec<char>)
    ensures
        r@ == lower_seq(v@),
{
    let mut r: Vec<char> = Vec::new();
    let mut i: usize = 0;
    while i < v.len()
        invariant
            i <= v.len(),
            r@ == lower_seq(v@.take(i as int)),
        decreases v.len() - i,
    {
        r.push(lower_char(v[i]));
        i = i + 1;
        proof {
            assert(v@.take(i as int).map_values(|c: char| lower_c(c)) =~= v@.take(
                i - 1,
            ).map_values(|c: char| lower_c(c)).push(lower_c(v@[i - 1])));
        }
    }
    proof {
        assert(v@.take(v@.len() as int) =~= v@);
    }
    r
}

// ---------------------------------------------------------------------------
// Conversions between &str / String and Vec<char>
// ---------------------------------------------------------------------------

/// Collect the characters of a string slice.
pub fn chars_of(s: &str) -> (r: Vec<char>)
    ensures
        r@ == s@,
{
    let n = s.unicode_len();
    let mut r: Vec<char> = Vec::new();
    let mut i: usize = 0;
    while i < n
        invariant
            n == s@.len(),
            i <= n,
            r@ == s@.take(i as int),
        decreases n - i,
    {
        r.push(s.get_char(i));
        i = i + 1;
        proof {
            assert(s@.take(i as int) =~= s@.take(i - 1).push(s@[i - 1]));
        }
    }
    proof {
        assert(s@.take(n as int) =~= s@);
    }
    r
}

/// Relies on String::push: appends exactly the given character.
#[verifier::external_body]
fn push_char(s: &mut String, c: char)
    ensures
        final(s)@ == old(s)@.push(c),
{
    s.push(c);
}

/// Build a String holding exactly the given characters.
pub fn string_from_chars(v: &Vec<char>) -> (r: String)
    ensures
        r@ == v@,
{
    let mut s = String::new();
    let mut i: usize = 0;
    while i < v.len()
        invariant
            i <= v.len(),
            s@ == v@.take(i as int),
        decreases v.len() - i,
    {
        push_char(&mut s, v[i]);
        i = i + 1;
        proof {
            assert(v@.take(i as int) =~= v@.take(i - 1).push(v@[i - 1]));
        }
    }
    proof {
        assert(v@.take(v@.len() as int) =~= v@);
    }
    s
}

/// Concatenation of two string slices.
pub fn str_concat(a: &str, b: &str) -> (r: String)
    ensures
        r@ == a@ + b@,
{
    let av = chars_of(a);
    let bv = chars_of(b);
    let mut out = av;
    let mut i: usize = 0;
    proof {
        assert(a@ + bv@.take(0) =~= a@);
    }
    while i < bv.len()
        invariant
            i <= bv@.len(),
            out@ == a@ + bv@.take(i as int),
            bv@ == b@,
        decreases bv.len() - i,
    {
        out.push(bv[i]);
        i = i + 1;
        proof {
            assert(a@ + bv@.take(i as int) =~= (a@ + bv@.take(i - 1)).push(bv@[i - 1]));
        }
    }
    proof {
        assert(bv@.take(bv@.len() as int) =~= bv@);
        assert(out@.take(0) =~= Seq::<char>::empty());
    }
    string_from_chars(&out)
}

pub fn chars_eq(a: &Vec<char>, b: &Vec<char>) -> (r: bool)
    ensures
        r == (a@ == b@),
{
    if a.len() != b.len() {
        return false;
    }
    let mut i: usize = 0;
    while i < a.len()
        invariant
            i <= a.len(),
            a@.len() == b@.len(),
            forall|j: int| 0 <= j < i ==> a@[j] == b@[j],
        decreases a.len() - i,
    {
        if a[i] != b[i] {
            return false;
        }
        i = i + 1;
    }
    proof {
        assert(a@ =~= b@);
    }
    true
}

pub fn str_eq_str(a: &str, b: &str) -> (r: bool)
    ensures
        r == (a@ == b@),
{
    let na = a.unicode_len();
    let nb = b.unicode_len();
    if na != nb {
        return false;
    }
    let mut i: usize = 0;
    while i < na
        invariant
            na == a@.len(),
            a@.len() == b@.len(),
            i <= na,
            forall|j: int| 0 <= j < i ==> a@[j] == b@[j],
        decreases na - i,
    {
        if a.get_char(i) != b.get_char(i) {
            return false;
        }
        i = i + 1;
    }
    proof {
        assert(a@ =~= b@);
    }
    true
}

// ---------------------------------------------------------------------------
// Prefix tests and trimming
// ---------------------------------------------------------------------------

pub open spec fn has_prefix(s: Seq<char>, p: Seq<char>) -> bool {
    p.len() <= s.len() && s.take(p.len() as int) == p
}

pub fn chars_have_prefix(s: &Vec<char>, p: &Vec<char>) -> (r: bool)
    ensures
        r == has_prefix(s@, p@),
{
    if p.len() > s.len() {
        return false;
    }
    let mut i: usize = 0;
    while i < p.len()
        invariant
            i <= p.len(),
            p@.len() <= s@.len(),
            forall|j: int| 0 <= j < i ==> s@[j] == p@[j],
        decreases p.len() - i,
    {
        if s[i] != p[i] {
            proof {
                assert(s@.take(p@.len() as int)[i as int] == s@[i as int]);
            }
            return false;
        }
        i = i + 1;
    }
    proof {
        assert(s@.take(p@.len() as int) =~= p@);
    }
    true
}

pub open spec fn has_suffix(s: Seq<char>, p: Seq<char>) -> bool {
    p.len() <= s.len() && s.skip(s.len() - p.len()) == p
}

pub fn chars_have_suffix(s: &Vec<char>, p: &Vec<char>) -> (r: bool)
    ensures
        r == has_suffix(s@, p@),
{
    if p.len() > s.len() {
        return false;
    }
    let off: usize = s.len() - p.len();
    let mut j: usize = off;
    while j < s.len()
        invariant
            off <= j <= s@.len(),
            off == s@.len() - p@.len(),
            p@.len() <= s@.len(),
            forall|q: int| off <= q < j ==> s@[q] == p@[q - off],
        decreases s.len() - j,
    {
        if s[j] != p[j - off] {
            proof {
                assert(s@.skip(off as int)[j - off] == s@[j as int]);
            }
            return false;
        }
        j = j + 1;
    }
    proof {
        assert(s@.skip(off as int) =~= p@);
    }
    true
}

/// Index of the first occurrence of `c`, or -1.
pub open spec fn find_char(s: Seq<char>, c: char) -> int
    decreases s.len(),
{
    if s.len() == 0 {
        -1
    } else if s[0] == c {
        0
    } else {
        let r = find_char(s.drop_first(), c);
        if r < 0 {
            -1
        } else {
            r + 1
        }
    }
}

pub proof fn lemma_find_char(s: Seq<char>, c: char)
    ensures
        find_char(s, c) == -1 ==> forall|k: int| 0 <= k < s.len() ==> s[k] != c,
        find_char(s, c) >= 0 ==> {
            let r = find_char(s, c);
            &&& 0 <= r < s.len()
            &&& s[r] == c
            &&& forall|k: int| 0 <= k < r ==> s[k] != c
        },
    decreases s.len(),
{
    if s.len() > 0 && s[0] != c {
        lemma_find_char(s.drop_first(), c);
        let t = s.drop_first();
        assert forall|k: int| 1 <= k < s.len() implies s[k] == t[k - 1] by {}
    }
}

pub fn find_char_exec(s: &Vec<char>, c: char) -> (r: Option<usize>)
    ensures
        match r {
            Some(i) => i < s@.len() && find_char(s@, c) == i as int,
            None => find_char(s@, c) == -1,
        },
{
    proof {
        lemma_find_char(s@, c);
    }
    let mut i: usize = 0;
    while i < s.len()
        invariant
            i <= s.len(),
            forall|j: int| 0 <= j < i ==> s@[j] != c,
            find_char(s@, c) == -1 ==> forall|k: int| 0 <= k < s@.len() ==> s@[k] != c,
            find_char(s@, c) >= 0 ==> {
                let rr = find_char(s@, c);
                &&& 0 <= rr < s@.len()
                &&& s@[rr] == c
                &&& forall|k: int| 0 <= k < rr ==> s@[k] != c
            },
        decreases s.len() - i,
    {
        if s[i] == c {
            proof {
                let rr = find_char(s@, c);
                if rr < i {
                    assert(s@[rr] != c);
                }
            }
            return Some(i);
        }
        i = i + 1;
    }
    proof {
        if find_char(s@, c) >= 0 {
            let rr = find_char(s@, c);
            assert(s@[rr] != c);
        }
    }
    None
}

/// Copy of the characters from `from` on.
pub fn chars_slice(v: &Vec<char>, from: usize) -> (r: Vec<char>)
    requires
        from <= v@.len(),
    ensures
        r@ == v@.skip(from as int),
{
    let mut r: Vec<char> = Vec::new();
    let mut i: usize = from;
    while i < v.len()
        invariant
            from <= i <= v.len(),
            r@ == v@.subrange(from as int, i as int),
        decreases v.len() - i,
    {
        r.push(v[i]);
        i = i + 1;
        proof {
            assert(v@.subrange(from as int, i as int) =~= v@.subrange(from as int, i - 1).push(
                v@[i - 1],
            ));
        }
    }
    proof {
        assert(v@.subrange(from as int, v@.len() as int) =~= v@.skip(from as int));
    }
    r
}

/// Copy of the first `n` characters.
pub fn chars_take(v: &Vec<char>, n: usize) -> (r: Vec<char>)
    requires
        n <= v@.len(),
    ensures
        r@ == v@.take(n as int),
{
    let mut r: Vec<char> = Vec::new();
    let mut i: usize = 0;
    while i < n
        invariant
            i <= n <= v@.len(),
            r@ == v@.take(i as int),
        decreases n - i,
    {
        r.push(v[i]);
        i = i + 1;
        proof {
            assert(v@.take(i as int) =~= v@.take(i - 1).push(v@[i - 1]));
        }
    }
    r
}

pub fn clone_chars(v: &Vec<char>) -> (r: Vec<char>)
    ensures
        r@ == v@,
{
    let mut r: Vec<char> = Vec::new();
    let mut i: usize = 0;
    while i < v.len()
        invariant
            i <= v.len(),
            r@ == v@.take(i as int),
        decreases v.len() - i,
    {
        r.push(v[i]);
        i = i + 1;
        proof {
            assert(v@.take(i as int) =~= v@.take(i - 1).push(v@[i - 1]));
        }
    }
    proof {
        assert(v@.take(v@.len() as int) =~= v@);
    }
    r
}

/// Number of leading whitespace characters.
pub open spec fn ws_front(s: Seq<char>) -> int
    decreases s.len(),
{
    if s.len() > 0 && is_ws_c(s[0]) {
        1 + ws_front(s.drop_first())
    } else {
        0
    }
}

/// Number of trailing whitespace characters.
pub open spec fn ws_back(s: Seq<char>) -> int
    decreases s.len(),
{
    if s.len() > 0 && is_ws_c(s[s.len() - 1]) {
        1 + ws_back(s.drop_last())
    } else {
        0
    }
}

pub open spec fn trim_spec(s: Seq<char>) -> Seq<char> {
    if ws_front(s) == s.len() {
        Seq::empty()
    } else {
        s.subrange(ws_front(s), s.len() - ws_back(s))
    }
}

proof fn lemma_ws_front_range(s: Seq<char>)
    ensures
        0 <= ws_front(s) <= s.len(),
        forall|j: int| 0 <= j < ws_front(s) ==> is_ws_c(s[j]),
        ws_front(s) < s.len() ==> !is_ws_c(s[ws_front(s)]),
    decreases s.len(),
{
    if s.len() > 0 && is_ws_c(s[0]) {
        lemma_ws_front_range(s.drop_first());
        assert forall|j: int| 0 <= j < ws_front(s) implies is_ws_c(s[j]) by {
            if j > 0 {
                assert(s.drop_first()[j - 1] == s[j]);
            }
        }
        if ws_front(s) < s.len() {
            assert(s.drop_first()[ws_front(s) - 1] == s[ws_front(s)]);
        }
    }
}

proof fn lemma_ws_back_range(s: Seq<char>)
    ensures
        0 <= ws_back(s) <= s.len(),
        forall|j: int| s.len() - ws_back(s) <= j < s.len() ==> is_ws_c(s[j]),
        ws_back(s) < s.len() ==> !is_ws_c(s[s.len() - ws_back(s) - 1]),
    decreases s.len(),
{
    if s.len() > 0 && is_ws_c(s[s.len() - 1]) {
        lemma_ws_back_range(s.drop_last());
        assert forall|j: int| s.len() - ws_back(s) <= j < s.len() implies is_ws_c(s[j]) by {
            if j < s.len() - 1 {
                assert(s.drop_last()[j] == s[j]);
            }
        }
        if ws_back(s) < s.len() {
            assert(s.drop_last()[s.len() - ws_back(s) - 1] == s[s.len() - ws_back(s) - 1]);
        }
    }
}

/// Strip leading and trailing ASCII whitespace.
pub fn trim_chars(s: &Vec<char>) -> (r: Vec<char>)
    ensures
        r@ == trim_spec(s@),
{
    proof {
        lemma_ws_front_range(s@);
        lemma_ws_back_range(s@);
    }
    let mut lo: usize = 0;
    while lo < s.len() && is_ws_char(s[lo])
        invariant
            lo <= s.len(),
            forall|j: int| 0 <= j < lo ==> is_ws_c(s@[j]),
            ws_front(s@) >= lo,
        decreases s.len() - lo,
    {
        proof {
            lemma_ws_front_range(s@);
            if ws_front(s@) == lo {
                assert(false);
            }
        }
        lo = lo + 1;
    }
    proof {
        lemma_ws_front_range(s@);
        if lo < s@.len() {
            assert(ws_front(s@) <= lo);
        }
        assert(ws_front(s@) == lo);
    }
    if lo == s.len() {
        let r: Vec<char> = Vec::new();
        return r;
    }
    let mut hi: usize = s.len();
    proof {
        lemma_ws_back_range(s@);
    }
    while hi > lo && is_ws_char(s[hi - 1])
        invariant
            lo <= hi <= s.len(),
            lo == ws_front(s@),
            lo < s@.len(),
            forall|j: int| hi <= j < s.len() ==> is_ws_c(s@[j]),
            ws_back(s@) >= s@.len() - hi,
        decreases hi,
    {
        proof {
            lemma_ws_back_range(s@);
            if s@.len() - ws_back(s@) == hi {
                assert(false);
            }
        }
        hi = hi - 1;
    }
    proof {
        lemma_ws_back_range(s@);
        if hi > lo {
            assert(!is_ws_c(s@[hi - 1]));
            assert(ws_back(s@) <= s@.len() - hi);
        } else {
            assert(!is_ws_c(s@[lo as int]));
            assert(ws_back(s@) <= s@.len() - lo - 1);
        }
        assert(ws_back(s@) == s@.len() - hi);
    }
    let mut r: Vec<char> = Vec::new();
    let mut i: usize = lo;
    while i < hi
        invariant
            lo <= i <= hi <= s.len(),
            r@ == s@.subrange(lo as int, i as int),
        decreases hi - i,
    {
        r.push(s[i]);
        i = i + 1;
        proof {
            assert(s@.subrange(lo as int, i as int) =~= s@.subrange(lo as int, i - 1).push(
                s@[i - 1],
            ));
        }
    }
    r
}

// ---------------------------------------------------------------------------
// Line splitting and substring search
// ---------------------------------------------------------------------------

/// A line without its trailing carriage return.
pub open spec fn strip_cr(l: Seq<char>) -> Seq<char> {
    if l.len() > 0 && l.last() == '\r' {
        l.drop_last()
    } else {
        l
    }
}

/// The lines of a text: split at each line feed, carriage returns stripped;
/// a trailing line feed yields no extra empty line.
pub open spec fn split_nl(s: Seq<char>) -> Seq<Seq<char>>
    decreases s.len(),
{
    if s.len() == 0 {
        Seq::empty()
    } else {
        let k = find_char(s, '\n');
        if 0 <= k < s.len() {
            seq![strip_cr(s.take(k))] + split_nl(s.skip(k + 1))
        } else {
            seq![strip_cr(s)]
        }
    }
}

fn strip_cr_exec(l: Vec<char>) -> (r: Vec<char>)
    ensures
        r@ == strip_cr(l@),
{
    let mut l = l;
    if l.len() > 0 && l[l.len() - 1] == '\r' {
        l.pop();
    }
    l
}

/// Split a text into lines.
pub fn split_lines(s: &Vec<char>) -> (r: Vec<Vec<char>>)
    ensures
        r@.map_values(|l: Vec<char>| l@) == split_nl(s@),
{
    let mut out: Vec<Vec<char>> = Vec::new();
    let mut rest = clone_chars(s);
    let ghost mut done: Seq<Seq<char>> = Seq::empty();
    proof {
        assert(split_nl(s@) =~= done + split_nl(rest@));
        assert(out@.map_values(|l: Vec<char>| l@) =~= done);
    }
    loop
        invariant_except_break
            split_nl(s@) == done + split_nl(rest@),
            out@.map_values(|l: Vec<char>| l@) == done,
        ensures
            out@.map_values(|l: Vec<char>| l@) == split_nl(s@),
        decreases rest@.len() + 1,
    {
        if rest.len() == 0 {
            proof {
                assert(split_nl(rest@) =~= Seq::<Seq<char>>::empty());
                assert(split_nl(s@) =~= done);
            }
            break ;
        }
        match find_char_exec(&rest, '\n') {
            Some(k) => {
                let head = strip_cr_exec(chars_take(&rest, k));
                let newrest = chars_slice(&rest, k + 1);
                proof {
                    assert(split_nl(rest@) == seq![strip_cr(rest@.take(k as int))] + split_nl(
                        rest@.skip(k + 1),
                    ));
                    done = done.push(head@);
                }
                out.push(head);
                proof {
                    assert(out@.map_values(|l: Vec<char>| l@) =~= done);
                    assert(split_nl(s@) =~= done + split_nl(newrest@));
                }
                rest = newrest;
            },
            None => {
                let head = strip_cr_exec(rest);
                proof {
                    done = done.push(head@);
                }
                out.push(head);
                proof {
                    assert(out@.map_values(|l: Vec<char>| l@) =~= done);
                    assert(split_nl(s@) =~= done);
                }
                break ;
            },
        }
    }
    out
}

/// Index of the first whitespace character, or -1.
pub open spec fn find_ws(t: Seq<char>) -> int
    decreases t.len(),
{
    if t.len() == 0 {
        -1
    } else if is_ws_c(t[0]) {
        0
    } else {
        let r = find_ws(t.drop_first());
        if r < 0 {
            -1
        } else {
            r + 1
        }
    }
}

pub proof fn lemma_find_ws(t: Seq<char>)
    ensures
        find_ws(t) == -1 ==> forall|k: int| 0 <= k < t.len() ==> !is_ws_c(t[k]),
        find_ws(t) >= 0 ==> {
            let r = find_ws(t);
            &&& 0 <= r < t.len()
            &&& is_ws_c(t[r])
            &&& forall|k: int| 0 <= k < r ==> !is_ws_c(t[k])
        },
    decreases t.len(),
{
    if t.len() > 0 && !is_ws_c(t[0]) {
        lemma_find_ws(t.drop_first());
        let d = t.drop_first();
        assert forall|k: int| 1 <= k < t.len() implies t[k] == d[k - 1] by {}
    }
}

pub fn find_ws_exec(t: &Vec<char>) -> (r: Option<usize>)
    ensures
        match r {
            Some(i) => i < t@.len() && find_ws(t@) == i as int,
            None => find_ws(t@) == -1,
        },
{
    proof {
        lemma_find_ws(t@);
    }
    let mut i: usize = 0;
    while i < t.len()
        invariant
            i <= t.len(),
            forall|j: int| 0 <= j < i ==> !is_ws_c(t@[j]),
            find_ws(t@) == -1 ==> forall|k: int| 0 <= k < t@.len() ==> !is_ws_c(t@[k]),
            find_ws(t@) >= 0 ==> {
                let rr = find_ws(t@);
                &&& 0 <= rr < t@.len()
                &&& is_ws_c(t@[rr])
                &&& forall|k: int| 0 <= k < rr ==> !is_ws_c(t@[k])
            },
        decreases t.len() - i,
    {
        if is_ws_char(t[i]) {
            proof {
                let rr = find_ws(t@);
                if rr < i {
                    assert(!is_ws_c(t@[rr]));
                }
                if rr > i || rr == -1 {
                    assert(!is_ws_c(t@[i as int]));
                }
            }
            return Some(i);
        }
        i = i + 1;
    }
    proof {
        if find_ws(t@) >= 0 {
            assert(!is_ws_c(t@[find_ws(t@)]));
        }
    }
    None
}

/// The whitespace-separated tokens of a line that are longer than one
/// character.
pub open spec fn ws_tokens(t: Seq<char>) -> Seq<Seq<char>>
    decreases t.len(),
{
    let k = find_ws(t);
    if 0 <= k < t.len() {
        let head = t.take(k);
        let rest = ws_tokens(t.skip(k + 1));
        if head.len() > 1 {
            seq![head] + rest
        } else {
            rest
        }
    } else {
        if t.len() > 1 {
            seq![t]
        } else {
            Seq::empty()
        }
    }
}

/// Whether `w` occurs in `l` at offset `i`.
pub open spec fn sub_at(l: Seq<char>, w: Seq<char>, i: int) -> bool {
    0 <= i && i + w.len() <= l.len() && l.subrange(i, i + w.len()) == w
}

/// The first offset where `w` occurs in `l`, or -1.
pub open spec fn find_sub(l: Seq<char>, w: Seq<char>) -> int
    decreases l.len(),
{
    if w.len() > l.len() {
        -1
    } else if l.take(w.len() as int) == w {
        0
    } else if l.len() == 0 {
        -1
    } else {
        let r = find_sub(l.drop_first(), w);
        if r < 0 {
            -1
        } else {
            r + 1
        }
    }
}

pub fn find_sub_exec(l: &Vec<char>, w: &Vec<char>) -> (r: Option<usize>)
    ensures
        match r {
            Some(i) => i as int == find_sub(l@, w@) && i + w@.len() <= l@.len(),
            None => find_sub(l@, w@) == -1,
        },
{
    let mut i: usize = 0;
    proof {
        assert(l@.skip(0) =~= l@);
    }
    loop
        invariant
            i <= l@.len(),
            find_sub(l@, w@) == spec_shift(find_sub(l@.skip(i as int), w@), i as int),
        decreases l@.len() - i,
    {
        if w.len() > l.len() - i {
            proof {
                assert(w@.len() > l@.skip(i as int).len());
                assert(find_sub(l@.skip(i as int), w@) == -1);
            }
            return None;
        }
        let window = chars_slice(l, i);
        let hit = chars_have_prefix(&window, w);
        proof {
            assert(window@.take(w@.len() as int) =~= window@.take(w@.len() as int));
        }
        if hit {
            proof {
                assert(l@.skip(i as int).take(w@.len() as int) == w@);
                assert(find_sub(l@.skip(i as int), w@) == 0);
            }
            return Some(i);
        }
        proof {
            let rem = l@.skip(i as int);
            assert(rem.take(w@.len() as int) != w@);
            if rem.len() == 0 {
                assert(w@.len() == 0);
                assert(rem.take(0) =~= w@);
                assert(false);
            }
            assert(rem.drop_first() =~= l@.skip(i + 1));
        }
        i = i + 1;
    }
}

/// Shift a found offset, keeping "not found".
pub open spec fn spec_shift(r: int, by: int) -> int {
    if r < 0 {
        -1
    } else {
        r + by
    }
}

// ---------------------------------------------------------------------------
// Lexicographic order on character sequences (code-point order)
// ---------------------------------------------------------------------------

pub open spec fn seq_char_le(a: Seq<char>, b: Seq<char>) -> bool
    decreases a.len(),
{
    if a.len() == 0 {
        true
    } else if b.len() == 0 {
        false
    } else if (a[0] as u32) < (b[0] as u32) {
        true
    } else if (a[0] as u32) > (b[0] as u32) {
        false
    } else {
        seq_char_le(a.drop_first(), b.drop_first())
    }
}

pub open spec fn seq_char_lt(a: Seq<char>, b: Seq<char>) -> bool {
    seq_char_le(a, b) && a != b
}

pub proof fn lemma_seq_char_le_refl(a: Seq<char>)
    ensures
        seq_char_le(a, a),
    decreases a.len(),
{
    if a.len() > 0 {
        lemma_seq_char_le_refl(a.drop_first());
    }
}

pub proof fn lemma_seq_char_le_total(a: Seq<char>, b: Seq<char>)
    ensures
        seq_char_le(a, b) || seq_char_le(b, a),
    decreases a.len(),
{
    if a.len() > 0 && b.len() > 0 && a[0] as u32 == b[0] as u32 {
        lemma_seq_char_le_total(a.drop_first(), b.drop_first());
    }
}

pub proof fn lemma_seq_char_le_antisym(a: Seq<char>, b: Seq<char>)
    requires
        seq_char_le(a, b),
        seq_char_le(b, a),
    ensures
        a == b,
    decreases a.len(),
{
    if a.len() == 0 {
        assert(b.len() == 0);
        assert(a =~= b);
    } else {
        assert(b.len() > 0);
        assert(a[0] == b[0]) by {
            assert((a[0] as u32) <= (b[0] as u32));
            assert((b[0] as u32) <= (a[0] as u32));
            vstd::utf8::char_u32_cast(a[0], a[0] as u32);
            vstd::utf8::char_u32_cast(b[0], b[0] as u32);
        }
        lemma_seq_char_le_antisym(a.drop_first(), b.drop_first());
        assert(a =~= seq![a[0]] + a.drop_first());
        assert(b =~= seq![b[0]] + b.drop_first());
    }
}

pub proof fn lemma_seq_char_le_trans(a: Seq<char>, b: Seq<char>, c: Seq<char>)
    requires
        seq_char_le(a, b),
        seq_char_le(b, c),
    ensures
        seq_char_le(a, c),
    decreases a.len(),
{
    if a.len() > 0 && b.len() > 0 && c.len() > 0 {
        if a[0] as u32 == b[0] as u32 && b[0] as u32 == c[0] as u32 {
            lemma_seq_char_le_trans(a.drop_first(), b.drop_first(), c.drop_first());
        }
    }
}

pub fn chars_le(a: &Vec<char>, b: &Vec<char>) -> (r: bool)
    ensures
        r == seq_char_le(a@, b@),
{
    let mut i: usize = 0;
    proof {
        assert(a@.skip(0) =~= a@);
        assert(b@.skip(0) =~= b@);
    }
    loop
        invariant
            i <= a.len(),
            i <= b.len(),
            forall|j: int| 0 <= j < i ==> a@[j] == b@[j],
            seq_char_le(a@, b@) == seq_char_le(a@.skip(i as int), b@.skip(i as int)),
        decreases a.len() - i,
    {
        if i == a.len() {
            return true;
        }
        if i == b.len() {
            return false;
        }
        proof {
            assert(a@.skip(i as int)[0] == a@[i as int]);
            assert(b@.skip(i as int)[0] == b@[i as int]);
        }
        let ca = a[i] as u32;
        let cb = b[i] as u32;
        if ca < cb {
            return true;
        }
        if ca > cb {
            return false;
        }
        proof {
            vstd::utf8::char_u32_cast(a@[i as int], a@[i as int] as u32);
            vstd::utf8::char_u32_cast(b@[i as int], b@[i as int] as u32);
            let sa = a@.skip(i as int);
            let sb = b@.skip(i as int);
            assert(sa[0] == a@[i as int]);
            assert(sb[0] == b@[i as int]);
            assert(sa.drop_first() =~= a@.skip(i + 1));
            assert(sb.drop_first() =~= b@.skip(i + 1));
        }
        i = i + 1;
    }
}

pub fn chars_lt(a: &Vec<char>, b: &Vec<char>) -> (r: bool)
    ensures
        r == seq_char_lt(a@, b@),
{
    chars_le(a, b) && !chars_eq(a, b)
}

// ---------------------------------------------------------------------------
// Number parsing (decimal and other radixes up to 36)
// ---------------------------------------------------------------------------

/// Value of one digit character under the given radix, if valid.
pub open spec fn digit_val_c(c: char, radix: u32) -> Option<u32> {
    let u = c as int;
    let v: int = if 48 <= u && u <= 57 {
        u - 48
    } else if 97 <= u && u <= 122 {
        u - 87
    } else if 65 <= u && u <= 90 {
        u - 55
    } else {
        radix as int
    };
    if v < radix {
        Some(v as u32)
    } else {
        None
    }
}

/// Value of a digit string under the given radix; `None` if empty or if any
/// character is not a digit of that radix.
pub open spec fn parse_radix_spec(s: Seq<char>, radix: u32) -> Option<nat>
    decreases s.len(),
{
    if s.len() == 0 {
        None
    } else if s.len() == 1 {
        match digit_val_c(s[0], radix) {
            Some(v) => Some(v as nat),
            None => None,
        }
    } else {
        match (parse_radix_spec(s.drop_last(), radix), digit_val_c(s[s.len() - 1], radix)) {
            (Some(hi), Some(lo)) => Some((hi * radix + lo) as nat),
            _ => None,
        }
    }
}

pub fn digit_val(c: char, radix: u32) -> (r: Option<u32>)
    requires
        radix <= 36,
    ensures
        r == digit_val_c(c, radix),
{
    let u = c as u32;
    let v: u32 = if 48 <= u && u <= 57 {
        u - 48
    } else if 97 <= u && u <= 122 {
        u - 87
    } else if 65 <= u && u <= 90 {
        u - 55
    } else {
        radix
    };
    if v < radix {
        Some(v)
    } else {
        None
    }
}

/// Parse a digit string; `None` on an empty or malformed string, or when the
/// value does not fit in `u32`.
pub fn parse_radix(s: &Vec<char>, radix: u32) -> (r: Option<u32>)
    requires
        2 <= radix <= 36,
    ensures
        match r {
            Some(v) => parse_radix_spec(s@, radix) == Some(v as nat),
            None => parse_radix_spec(s@, radix) is None || parse_radix_spec(s@, radix)->Some_0
                > u32::MAX,
        },
{
    if s.len() == 0 {
        return None;
    }
    let mut acc: u64 = 0;
    let mut i: usize = 0;
    let mut overflow = false;
    while i < s.len()
        invariant
            2 <= radix <= 36,
            i <= s.len(),
            i == 0 ==> !overflow && acc == 0,
            i > 0 && !overflow ==> parse_radix_spec(s@.take(i as int), radix) == Some(
                acc as nat,
            ) && acc <= u32::MAX,
            i > 0 && overflow ==> (parse_radix_spec(s@.take(i as int), radix) is None
                || parse_radix_spec(s@.take(i as int), radix)->Some_0 > u32::MAX),
        decreases s.len() - i,
    {
        let d = digit_val(s[i], radix);
        proof {
            assert(s@.take(i + 1).drop_last() =~= s@.take(i as int));
            assert(s@.take(i + 1)[i as int] == s@[i as int]);
        }
        match d {
            None => {
                overflow = true;
            },
            Some(dv) => {
                if !overflow {
                    let r64: u64 = radix as u64;
                    proof {
                        assert(acc <= 0xffff_ffffu64);
                        assert(acc * r64 <= 0xffff_ffffu64 * 36) by (nonlinear_arith)
                            requires
                                acc <= 0xffff_ffffu64,
                                r64 <= 36,
                        ;
                    }
                    let next: u64 = acc * r64 + (dv as u64);
                    if next > u32::MAX as u64 {
                        overflow = true;
                        proof {
                            if i > 0 {
                                assert(parse_radix_spec(s@.take(i + 1), radix) == Some(
                                    ((acc as nat) * radix + dv) as nat,
                                ));
                            }
                        }
                    } else {
                        acc = next;
                    }
                } else {
                    proof {
                        if parse_radix_spec(s@.take(i as int), radix) is Some {
                            let hi = parse_radix_spec(s@.take(i as int), radix)->Some_0;
                            assert(hi > u32::MAX);
                            assert(hi * radix >= hi) by (nonlinear_arith)
                                requires
                                    hi > 0,
                                    radix >= 2,
                            ;
                        }
                    }
                }
            },
        }
        i = i + 1;
    }
    proof {
        assert(s@.take(s@.len() as int) =~= s@);
    }
    if overflow {
        None
    } else {
        Some(acc as u32)
    }
}

// ---------------------------------------------------------------------------
// Hexadecimal rendering of bytes
// ---------------------------------------------------------------------------

pub open spec fn hex_digit_c(v: u8) -> char {
    if v < 10 {
        ((48 + v as u32) as u8) as char
    } else {
        ((87 + v as u32) as u8) as char
    }
}

pub open spec fn hex_of(bytes: Seq<u8>) -> Seq<char>
    decreases bytes.len(),
{
    if bytes.len() == 0 {
        Seq::empty()
    } else {
        hex_of(bytes.drop_last()).push(hex_digit_c(bytes.last() / 16)).push(
            hex_digit_c(bytes.last() % 16),
        )
    }
}

/// Lowercase hexadecimal rendering, two digits per byte.
pub fn bytes_to_hex(bytes: &Vec<u8>) -> (r: Vec<char>)
    ensures
        r@ == hex_of(bytes@),
{
    let mut r: Vec<char> = Vec::new();
    let mut i: usize = 0;
    while i < bytes.len()
        invariant
            i <= bytes.len(),
            r@ == hex_of(bytes@.take(i as int)),
        decreases bytes.len() - i,
    {
        let b = bytes[i];
        let hi: u8 = b / 16;
        let lo: u8 = b % 16;
        let hc: char = if hi < 10 {
            (48 + hi) as char
        } else {
            (87 + hi) as char
        };
        let lc: char = if lo < 10 {
            (48 + lo) as char
        } else {
            (87 + lo) as char
        };
        r.push(hc);
        r.push(lc);
        i = i + 1;
        proof {
            assert(bytes@.take(i as int).drop_last() =~= bytes@.take(i - 1));
            assert(bytes@.take(i as int).last() == bytes@[i - 1]);
        }
    }
    proof {
        assert(bytes@.take(bytes@.len() as int) =~= bytes@);
    }
    r
}

} // verus!
