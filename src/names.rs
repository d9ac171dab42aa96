//! Log file names: a generation `N` lives in the file `N.log`.
use vstd::prelude::*;
use vstd::utf8::*;

verus! {

pub open spec fn is_digit(b: u8) -> bool {
    48 <= b <= 57
}

/// The number that a string of decimal digits writes.
pub open spec fn digits_value(s: Seq<u8>) -> nat
    decreases s.len(),
{
    if s.len() == 0 {
        0
    } else {
        digits_value(s.drop_last()) * 10 + (s.last() - 48) as nat
    }
}

/// `.log`
pub open spec fn log_suffix() -> Seq<u8> {
    seq![46u8, 108, 111, 103]
}

/// The generation that a file name (as UTF-8 bytes) stands for: decimal
/// digits without a leading zero, then `.log`.
pub open spec fn name_generation(b: Seq<u8>) -> Option<nat> {
    let n = b.len() - 4;
    if b.len() > 4 && b.subrange(n, b.len() as int) == log_suffix() && b[0] != 48 && (forall|i: int|
        0 <= i < n ==> is_digit(#[trigger] b[i])) {
        Some(digits_value(b.subrange(0, n)))
    } else {
        None
    }
}

/// Ids strictly ascending.
pub open spec fn strictly_ascending(s: Seq<u64>) -> bool {
    forall|i: int, j: int| 0 <= i < j < s.len() ==> s[i] < s[j]
}

proof fn lemma_digits_grow(b: Seq<u8>, i: int, n: int)
    requires
        0 <= i <= n <= b.len(),
    ensures
        digits_value(b.subrange(0, i)) <= digits_value(b.subrange(0, n)),
    decreases n - i,
{
    if i < n {
        lemma_digits_grow(b, i, n - 1);
        assert(b.subrange(0, n).drop_last() =~= b.subrange(0, n - 1));
    }
}

/// The generation id of a log file name, or `None` where the name is not
/// that of a log file or its number does not fit in 64 bits.
pub fn generation_of_file_name(name: &str) -> (r: Option<u64>)
    ensures
        r is Some <==> name_generation(encode_utf8(name@)) is Some && name_generation(
            encode_utf8(name@),
        )->0 <= u64::MAX,
        r matches Some(id) ==> name_generation(encode_utf8(name@)) == Some(id as nat),
{
    let b = name.as_bytes();
    let n = b.len();
    assert(b@ == encode_utf8(name@));
    if n <= 4 {
        return None;
    }
    let m = n - 4;
    if b[m] != 46 || b[m + 1] != 108 || b[m + 2] != 111 || b[m + 3] != 103 {
        proof {
            let s = b@.subrange(m as int, n as int);
            if s == log_suffix() {
                assert(s[0] == 46 && s[1] == 108 && s[2] == 111 && s[3] == 103);
            }
        }
        return None;
    }
    proof {
        assert(b@.subrange(m as int, n as int) =~= log_suffix());
    }
    if b[0] == 48 {
        return None;
    }
    let mut v: u64 = 0;
    let mut i: usize = 0;
    while i < m
        invariant
            i <= m,
            m + 4 == n,
            n == b@.len(),
            b@ == encode_utf8(name@),
            b@.subrange(m as int, n as int) == log_suffix(),
            b@[0] != 48,
            forall|j: int| 0 <= j < i ==> is_digit(#[trigger] b@[j]),
            v as nat == digits_value(b@.subrange(0, i as int)),
        decreases m - i,
    {
        let c = b[i];
        if c < 48 || c > 57 {
            proof {
                assert(!is_digit(b@[i as int]));
            }
            return None;
        }
        proof {
            assert(b@.subrange(0, i + 1).drop_last() =~= b@.subrange(0, i as int));
            assert(digits_value(b@.subrange(0, i + 1)) == v * 10 + (c - 48) as nat);
            assert(b@.subrange(0, b@.len() - 4) == b@.subrange(0, m as int));
        }
        match v.checked_mul(10) {
            Some(t) => match t.checked_add((c - 48) as u64) {
                Some(w) => {
                    v = w;
                },
                None => {
                    proof {
                        lemma_digits_grow(b@, i + 1, m as int);
                    }
                    return None;
                },
            },
            None => {
                proof {
                    lemma_digits_grow(b@, i + 1, m as int);
                }
                return None;
            },
        }
        i += 1;
    }
    Some(v)
}

/// The generation ids named by a directory's file names, ascending and
/// without repeats; names that are not log files are passed over.
pub fn log_generation_ids(names: &Vec<String>) -> (r: Vec<u64>)
    ensures
        strictly_ascending(r@),
        forall|id: u64|
            r@.contains(id) <==> exists|i: int|
                0 <= i < names@.len() && name_generation(encode_utf8(#[trigger] names@[i]@))
                    == Some(id as nat),
{
    let mut r: Vec<u64> = Vec::new();
    let mut k: usize = 0;
    while k < names.len()
        invariant
            k <= names@.len(),
            strictly_ascending(r@),
            forall|id: u64|
                r@.contains(id) <==> exists|i: int|
                    0 <= i < k && name_generation(encode_utf8(#[trigger] names@[i]@)) == Some(
                        id as nat,
                    ),
        decreases names.len() - k,
    {
        match generation_of_file_name(names[k].as_str()) {
            None => {
                proof {
                    assert forall|id: u64|
                        (exists|i: int|
                            0 <= i < k + 1 && name_generation(encode_utf8(#[trigger] names@[i]@))
                                == Some(id as nat)) implies r@.contains(id) by {
                        let i = choose|i: int|
                            0 <= i < k + 1 && name_generation(encode_utf8(#[trigger] names@[i]@))
                                == Some(id as nat);
                        assert(i != k);
                    }
                }
            },
            Some(id) => {
                let mut p: usize = 0;
                while p < r.len() && r[p] < id
                    invariant
                        p <= r@.len(),
                        forall|j: int| 0 <= j < p ==> r@[j] < id,
                    decreases r.len() - p,
                {
                    p += 1;
                }
                let ghost r0 = r@;
                if p < r.len() && r[p] == id {
                    proof {
                        assert(r@[p as int] == id);
                    }
                } else {
                    r.insert(p, id);
                    proof {
                        assert(r@[p as int] == id);
                        assert forall|a: int, b: int| 0 <= a < b < r@.len() implies r@[a]
                            < r@[b] by {
                            if b < p {
                            } else if b == p {
                            } else if a < p {
                                assert(r@[b] == r0[b - 1]);
                            } else if a == p {
                                assert(r@[b] == r0[b - 1]);
                                assert(r0[p as int] > id);
                                if b - 1 > p {
                                    assert(r0[p as int] < r0[b - 1]);
                                }
                            } else {
                                assert(r@[a] == r0[a - 1]);
                                assert(r@[b] == r0[b - 1]);
                            }
                        }
                        assert forall|x: u64| r@.contains(x) <==> (r0.contains(x) || x == id) by {
                            if r@.contains(x) {
                                let j = choose|j: int| 0 <= j < r@.len() && r@[j] == x;
                                if j < p {
                                    assert(r0[j] == x);
                                } else if j > p {
                                    assert(r0[j - 1] == x);
                                }
                            }
                            if r0.contains(x) {
                                let j = choose|j: int| 0 <= j < r0.len() && r0[j] == x;
                                if j < p {
                                    assert(r@[j] == x);
                                } else {
                                    assert(r@[j + 1] == x);
                                }
                            }
                            if x == id {
                                assert(r@[p as int] == x);
                            }
                        }
                    }
                }
                proof {
                    assert forall|x: u64| #[trigger] r@.contains(x) implies exists|i: int|
                        0 <= i < k + 1 && name_generation(encode_utf8(#[trigger] names@[i]@))
                            == Some(x as nat) by {
                        if x == id {
                            assert(name_generation(encode_utf8(names@[k as int]@)) == Some(
                                x as nat,
                            ));
                        } else {
                            assert(r0.contains(x));
                        }
                    }
                    assert forall|x: u64|
                        (exists|i: int|
                            0 <= i < k + 1 && name_generation(encode_utf8(#[trigger] names@[i]@))
                                == Some(x as nat)) implies r@.contains(x) by {
                        let i = choose|i: int|
                            0 <= i < k + 1 && name_generation(encode_utf8(#[trigger] names@[i]@))
                                == Some(x as nat);
                        if i < k {
                            assert(r0.contains(x));
                        } else {
                            assert(x == id);
                        }
                    }
                }
            },
        }
        k += 1;
    }
    r
}

} // verus!
