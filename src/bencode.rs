use vstd::prelude::*;

verus! {

pub open spec fn is_digit(c: u8) -> bool {
    0x30 <= c <= 0x39
}

/// Where the run of ASCII digits starting at `i` ends.
pub open spec fn digits_end(b: Seq<u8>, i: int) -> int
    decreases b.len() - i,
{
    if 0 <= i < b.len() && is_digit(b[i]) {
        digits_end(b, i + 1)
    } else {
        i
    }
}

/// The number that the digits `b[i..j]` spell.
pub open spec fn digits_value(b: Seq<u8>, i: int, j: int) -> nat
    decreases j - i,
{
    if j <= i {
        0
    } else {
        digits_value(b, i, j - 1) * 10 + (b[j - 1] - 0x30) as nat
    }
}

/// Where the bencoded value starting at `i` ends (one past its last byte), if
/// a well-formed value starts there: an integer `i..e`, a string `n:bytes`,
/// or a list or dictionary `l..e` / `d..e` of values.
pub open spec fn value_end(b: Seq<u8>, i: int) -> Option<int>
    decreases b.len() - i, 0int,
{
    if i < 0 || i >= b.len() {
        None
    } else if b[i] == 0x69 {
        let s = if i + 1 < b.len() && b[i + 1] == 0x2d { i + 2 } else { i + 1 };
        let d = digits_end(b, s);
        if d > s && d < b.len() && b[d] == 0x65 { Some(d + 1) } else { None }
    } else if is_digit(b[i]) {
        let d = digits_end(b, i);
        if d < b.len() && b[d] == 0x3a && d + 1 + digits_value(b, i, d) <= b.len() {
            Some(d + 1 + digits_value(b, i, d))
        } else {
            None
        }
    } else if b[i] == 0x6c || b[i] == 0x64 {
        items_end(b, i + 1)
    } else {
        None
    }
}

/// Where a run of values starting at `i` and closed by `e` ends.
pub open spec fn items_end(b: Seq<u8>, i: int) -> Option<int>
    decreases b.len() - i, 1int,
{
    if i < 0 || i >= b.len() {
        None
    } else if b[i] == 0x65 {
        Some(i + 1)
    } else {
        match value_end(b, i) {
            Some(e) => if i < e <= b.len() {
                items_end(b, e)
            } else {
                None
            },
            None => None,
        }
    }
}

/// The key whose value is the info dictionary, "info" in ASCII.
pub open spec fn info_key() -> Seq<u8> {
    seq![0x69u8, 0x6e, 0x66, 0x6f]
}

/// Where the value of key `key` lies among the dictionary items starting at
/// `i`: the first pair whose string key equals `key`.
pub open spec fn dict_lookup(b: Seq<u8>, i: int, key: Seq<u8>) -> Option<(int, int)>
    decreases b.len() - i,
{
    if i < 0 || i >= b.len() || !is_digit(b[i]) {
        None
    } else {
        match value_end(b, i) {
            Some(k) => if i < k <= b.len() {
                match value_end(b, k) {
                    Some(v) => if k < v <= b.len() {
                        if b.subrange(digits_end(b, i) + 1, k) == key {
                            Some((k, v))
                        } else {
                            dict_lookup(b, v, key)
                        }
                    } else {
                        None
                    },
                    None => None,
                }
            } else {
                None
            },
            None => None,
        }
    }
}

/// Where the info dictionary lies in a metadata descriptor: the value of the
/// top-level key "info".
pub open spec fn info_span(b: Seq<u8>) -> Option<(int, int)> {
    if b.len() > 0 && b[0] == 0x64 {
        dict_lookup(b, 1, info_key())
    } else {
        None
    }
}

proof fn lemma_digits_value_monotone(b: Seq<u8>, i: int, k: int, j: int)
    requires
        i <= k <= j,
        forall|t: int| i <= t < j ==> is_digit(#[trigger] b[t]),
    ensures
        digits_value(b, i, k) <= digits_value(b, i, j),
    decreases j - k,
{
    if k < j {
        lemma_digits_value_monotone(b, i, k, j - 1);
    }
}

fn digits_end_exec(b: &Vec<u8>, i: usize) -> (r: usize)
    requires
        i <= b@.len(),
    ensures
        r == digits_end(b@, i as int),
        i <= r <= b@.len(),
        forall|t: int| i <= t < r ==> is_digit(#[trigger] b@[t]),
{
    let mut j = i;
    while j < b.len() && 0x30 <= b[j] && b[j] <= 0x39
        invariant
            i <= j <= b@.len(),
            digits_end(b@, i as int) == digits_end(b@, j as int),
            forall|t: int| i <= t < j ==> is_digit(#[trigger] b@[t]),
        decreases b@.len() - j,
    {
        j = j + 1;
    }
    j
}

/// The number that the digits `b[i..j]` spell, if at most `cap`.
fn digits_value_capped(b: &Vec<u8>, i: usize, j: usize, cap: usize) -> (r: Option<usize>)
    requires
        i <= j <= b@.len(),
        forall|t: int| i <= t < j ==> is_digit(#[trigger] b@[t]),
    ensures
        match r {
            Some(v) => v == digits_value(b@, i as int, j as int) && v <= cap,
            None => digits_value(b@, i as int, j as int) > cap,
        },
{
    let mut v: usize = 0;
    let mut k = i;
    while k < j
        invariant
            i <= k <= j <= b@.len(),
            forall|t: int| i <= t < j ==> is_digit(#[trigger] b@[t]),
            v == digits_value(b@, i as int, k as int),
            v <= cap,
        decreases j - k,
    {
        let d = (b[k] - 0x30) as usize;
        assert(is_digit(b@[k as int]));
        if d > cap || v > (cap - d) / 10 {
            proof {
                if d <= cap {
                    assert(v * 10 + d > cap) by (nonlinear_arith)
                        requires v > (cap - d) / 10, d <= cap, v >= 0, d >= 0;
                }
                lemma_digits_value_monotone(b@, i as int, k + 1, j as int);
            }
            return None;
        }
        proof {
            assert(v * 10 + d <= cap) by (nonlinear_arith)
                requires v <= (cap - d) / 10, d <= cap, v >= 0;
        }
        v = v * 10 + d;
        k = k + 1;
    }
    Some(v)
}

/// Where the bencoded value starting at `i` ends, if one starts there.
pub fn value_end_exec(b: &Vec<u8>, i: usize) -> (r: Option<usize>)
    ensures
        match r {
            Some(e) => value_end(b@, i as int) == Some(e as int),
            None => value_end(b@, i as int) is None,
        },
    decreases b@.len() - i,
{
    let n = b.len();
    if i >= n {
        return None;
    }
    let c = b[i];
    if c == 0x69 {
        let s = if i + 1 < n && b[i + 1] == 0x2d { i + 2 } else { i + 1 };
        let d = digits_end_exec(b, s);
        if d > s && d < n && b[d] == 0x65 {
            Some(d + 1)
        } else {
            None
        }
    } else if 0x30 <= c && c <= 0x39 {
        let d = digits_end_exec(b, i);
        if d >= n || b[d] != 0x3a {
            return None;
        }
        match digits_value_capped(b, i, d, n - d - 1) {
            Some(len) => Some(d + 1 + len),
            None => None,
        }
    } else if c == 0x6c || c == 0x64 {
        assert(value_end(b@, i as int) == items_end(b@, (i + 1) as int));
        let mut j = i + 1;
        while j < n && b[j] != 0x65
            invariant
                n == b@.len(),
                i < j <= n,
                value_end(b@, i as int) == items_end(b@, (i + 1) as int),
                items_end(b@, (i + 1) as int) == items_end(b@, j as int),
            decreases n - j,
        {
            match value_end_exec(b, j) {
                Some(e) => {
                    if e > j && e <= n {
                        assert(items_end(b@, j as int) == items_end(b@, e as int));
                        j = e;
                    } else {
                        assert(items_end(b@, j as int) is None);
                        return None;
                    }
                },
                None => {
                    assert(items_end(b@, j as int) is None);
                    return None;
                },
            }
        }
        if j < n {
            Some(j + 1)
        } else {
            None
        }
    } else {
        None
    }
}

fn bytes_at_equal(b: &Vec<u8>, start: usize, end: usize, key: &Vec<u8>) -> (r: bool)
    requires
        start <= end <= b@.len(),
    ensures
        r == (b@.subrange(start as int, end as int) == key@),
{
    if end - start != key.len() {
        return false;
    }
    let mut t: usize = 0;
    while t < key.len()
        invariant
            start <= end <= b@.len(),
            end - start == key@.len(),
            t <= key@.len(),
            forall|q: int| 0 <= q < t ==> b@[start + q] == key@[q],
        decreases key@.len() - t,
    {
        if b[start + t] != key[t] {
            assert(b@.subrange(start as int, end as int)[t as int] != key@[t as int]);
            return false;
        }
        t = t + 1;
    }
    assert(b@.subrange(start as int, end as int) =~= key@);
    true
}

/// Where the value of `key` lies among the dictionary items starting at `start`.
pub fn dict_value(b: &Vec<u8>, start: usize, key: &Vec<u8>) -> (r: Option<(usize, usize)>)
    ensures
        match r {
            Some((s, e)) => dict_lookup(b@, start as int, key@) == Some((s as int, e as int)),
            None => dict_lookup(b@, start as int, key@) is None,
        },
{
    let n = b.len();
    let mut i = start;
    if i > n {
        return None;
    }
    while i < n && 0x30 <= b[i] && b[i] <= 0x39
        invariant
            n == b@.len(),
            i <= n,
            dict_lookup(b@, start as int, key@) == dict_lookup(b@, i as int, key@),
        decreases n - i,
    {
        let k = match value_end_exec(b, i) {
            Some(k) => k,
            None => {
                assert(dict_lookup(b@, i as int, key@) is None);
                return None;
            },
        };
        if k <= i || k > n {
            assert(dict_lookup(b@, i as int, key@) is None);
            return None;
        }
        let v = match value_end_exec(b, k) {
            Some(v) => v,
            None => {
                assert(dict_lookup(b@, i as int, key@) is None);
                return None;
            },
        };
        if v <= k || v > n {
            assert(dict_lookup(b@, i as int, key@) is None);
            return None;
        }
        let d = digits_end_exec(b, i);
        if d + 1 > k {
            proof {
                assert(value_end(b@, i as int) == Some(d + 1 + digits_value(b@, i as int, d as int)));
            }
            return None;
        }
        if bytes_at_equal(b, d + 1, k, key) {
            assert(dict_lookup(b@, i as int, key@) == Some((k as int, v as int)));
            return Some((k, v));
        }
        assert(dict_lookup(b@, i as int, key@) == dict_lookup(b@, v as int, key@));
        i = v;
    }
    assert(dict_lookup(b@, i as int, key@) is None);
    None
}

/// Where the info dictionary lies in a metadata descriptor, as a byte range.
pub fn info_dict_span(b: &Vec<u8>) -> (r: Option<(usize, usize)>)
    ensures
        match r {
            Some((s, e)) => info_span(b@) == Some((s as int, e as int)),
            None => info_span(b@) is None,
        },
{
    if b.len() == 0 || b[0] != 0x64 {
        return None;
    }
    let key: Vec<u8> = vec![0x69u8, 0x6e, 0x66, 0x6f];
    assert(key@ =~= info_key());
    dict_value(b, 1, &key)
}

/// The bytes of the string that occupies `b[s..e]`, if a string does.
pub open spec fn string_value(b: Seq<u8>, s: int, e: int) -> Option<Seq<u8>> {
    if 0 <= s < b.len() && is_digit(b[s]) && value_end(b, s) == Some(e) {
        Some(b.subrange(digits_end(b, s) + 1, e))
    } else {
        None
    }
}

/// The non-negative integer that occupies `b[s..e]`, if one does.
pub open spec fn uint_value(b: Seq<u8>, s: int, e: int) -> Option<nat> {
    if 0 <= s && s + 1 < b.len() && b[s] == 0x69 && is_digit(b[s + 1]) && value_end(b, s) == Some(e) {
        Some(digits_value(b, s + 1, e - 1))
    } else {
        None
    }
}

/// The string at `b[s..e]`.
pub fn string_at(b: &Vec<u8>, s: usize, e: usize) -> (r: Option<Vec<u8>>)
    ensures
        match r {
            Some(v) => string_value(b@, s as int, e as int) == Some(v@),
            None => string_value(b@, s as int, e as int) is None,
        },
{
    let n = b.len();
    if s >= n || !(0x30 <= b[s] && b[s] <= 0x39) {
        return None;
    }
    match value_end_exec(b, s) {
        Some(end) => {
            if end != e {
                return None;
            }
        },
        None => return None,
    }
    let d = digits_end_exec(b, s);
    proof {
        assert(value_end(b@, s as int) == Some(d + 1 + digits_value(b@, s as int, d as int)));
    }
    let mut v: Vec<u8> = Vec::new();
    let mut k = d + 1;
    while k < e
        invariant
            d + 1 <= k <= e <= n,
            n == b@.len(),
            v@ =~= b@.subrange(d + 1, k as int),
        decreases e - k,
    {
        v.push(b[k]);
        k = k + 1;
    }
    Some(v)
}

/// The non-negative integer at `b[s..e]`, if it fits a machine word.
pub fn uint_at(b: &Vec<u8>, s: usize, e: usize) -> (r: Option<usize>)
    ensures
        match r {
            Some(v) => uint_value(b@, s as int, e as int) == Some(v as nat),
            None => !(uint_value(b@, s as int, e as int) matches Some(x) && x <= usize::MAX),
        },
{
    let n = b.len();
    if s >= n || s + 1 >= n || b[s] != 0x69 || !(0x30 <= b[s + 1] && b[s + 1] <= 0x39) {
        return None;
    }
    match value_end_exec(b, s) {
        Some(end) => {
            if end != e {
                return None;
            }
        },
        None => return None,
    }
    let d = digits_end_exec(b, s + 1);
    proof {
        assert(d + 1 == e);
    }
    digits_value_capped(b, s + 1, d, usize::MAX)
}

proof fn lemma_lookup_bounds(b: Seq<u8>, i: int, key: Seq<u8>)
    ensures
        dict_lookup(b, i, key) matches Some((s, e)) ==> 0 <= s < e <= b.len(),
    decreases b.len() - i,
{
    if 0 <= i < b.len() && is_digit(b[i]) {
        if let Some(k) = value_end(b, i) {
            if i < k <= b.len() {
                if let Some(v) = value_end(b, k) {
                    if k < v <= b.len() {
                        lemma_lookup_bounds(b, v, key);
                    }
                }
            }
        }
    }
}

/// The info dictionary's range lies within the descriptor.
pub proof fn lemma_info_span_bounds(b: Seq<u8>)
    ensures
        info_span(b) matches Some((s, e)) ==> 0 <= s < e <= b.len(),
{
    lemma_lookup_bounds(b, 1, info_key());
}

} // verus!
