//! The URL-shortening codec: an append-only keyed store that assigns each
//! new long URL a compact identifier and renders it as a base-62 short code.

use crate::base62::alphabet;
use crate::base62::code_of;
use crate::base62::code_value;
use crate::base62::code_wf;
use crate::base62::digits_of;
use crate::base62::lemma_alphabet;
use crate::base62::lemma_code_of;
use crate::base62::lemma_code_of_injective;
use crate::base62::lemma_value_skip;
use crate::base62::sym_val;
use crate::base62::symbol_value;
use crate::base62::vals_of;
use crate::base62::value_of;
use vstd::prelude::*;

verus! {

/// The fixed prefix prepended to every short code when a short URL is
/// rendered.
pub open spec fn base_url_spec() -> Seq<char> {
    "http://tinyurl.com/"@
}

/// The code segment of a short URL: the substring after the last `'/'`,
/// or the whole string when it contains none.
pub open spec fn code_segment(s: Seq<char>) -> Seq<char>
    decreases s.len(),
{
    if s.len() == 0 {
        Seq::empty()
    } else if s.last() == '/' {
        Seq::empty()
    } else {
        code_segment(s.drop_last()).push(s.last())
    }
}

/// When position `k` starts the part of `s` after its last `'/'` (or
/// `k == 0` and `s` has none), the code segment is exactly that suffix.
pub proof fn lemma_code_segment_from(s: Seq<char>, k: int)
    requires
        0 <= k <= s.len(),
        forall|j: int| k <= j < s.len() ==> s[j] != '/',
        k > 0 ==> s[k - 1] == '/',
    ensures
        code_segment(s) == s.skip(k),
    decreases s.len(),
{
    if s.len() == 0 {
        assert(s.skip(k) =~= Seq::<char>::empty());
    } else if k == s.len() {
        assert(s.skip(k) =~= Seq::<char>::empty());
    } else {
        lemma_code_segment_from(s.drop_last(), k);
        assert(s.drop_last().skip(k).push(s.last()) =~= s.skip(k));
    }
}

/// The index of the first element of `us` equal to `u`, or `-1` when
/// `u` does not occur.
pub open spec fn first_index(us: Seq<Seq<char>>, u: Seq<char>) -> int
    decreases us.len(),
{
    if us.len() == 0 {
        -1
    } else if us[0] == u {
        0
    } else if first_index(us.drop_first(), u) == -1 {
        -1
    } else {
        1 + first_index(us.drop_first(), u)
    }
}

/// What [`first_index`] returns: a valid index of the first occurrence
/// when `u` occurs in `us`, and `-1` otherwise.
pub proof fn lemma_first_index(us: Seq<Seq<char>>, u: Seq<char>)
    ensures
        us.contains(u) <==> 0 <= first_index(us, u) < us.len(),
        us.contains(u) ==> us[first_index(us, u)] == u,
        forall|j: int| 0 <= j < first_index(us, u) ==> us[j] != u,
        !us.contains(u) ==> first_index(us, u) == -1,
    decreases us.len(),
{
    if us.len() != 0 && us[0] != u {
        let tail = us.drop_first();
        lemma_first_index(tail, u);
        assert(us.contains(u) <==> tail.contains(u)) by {
            if us.contains(u) {
                let i = choose|i: int| 0 <= i < us.len() && us[i] == u;
                assert(tail[i - 1] == u);
            }
            if tail.contains(u) {
                let i = choose|i: int| 0 <= i < tail.len() && tail[i] == u;
                assert(us[i + 1] == u);
            }
        }
        assert forall|j: int| 0 <= j < first_index(us, u) implies us[j] != u by {
            if j > 0 {
                assert(tail[j - 1] != u);
            }
        }
    }
}

/// The registered URLs after an encode of `u`: unchanged when `u` is
/// already registered, extended by `u` otherwise.
pub open spec fn urls_after(us: Seq<Seq<char>>, u: Seq<char>) -> Seq<Seq<char>> {
    if us.contains(u) {
        us
    } else {
        us.push(u)
    }
}

/// The short URL rendered for identifier `n`: the base prefix followed
/// by the identifier's base-62 code.
pub open spec fn short_url_at(n: int) -> Seq<char> {
    base_url_spec() + code_of(n as nat)
}

/// The short URL under which a registered long URL is reachable: its
/// record's identifier is one more than its index.
pub open spec fn short_url_of(us: Seq<Seq<char>>, u: Seq<char>) -> Seq<char> {
    short_url_at(first_index(us, u) + 1)
}

/// What `decode` returns, as a function of the registered URLs and the
/// characters of the short URL handed to it.
pub open spec fn decode_spec(us: Seq<Seq<char>>, s: Seq<char>) -> Result<Seq<char>, DecodeError> {
    let code = code_segment(s);
    if !code_wf(code) {
        Result::Err(DecodeError::MalformedShortCode)
    } else if 1 <= code_value(code) <= us.len() {
        Result::Ok(us[code_value(code) - 1])
    } else {
        Result::Err(DecodeError::UnknownIdentifier)
    }
}

/// Why a short URL could not be decoded.
#[derive(Clone, Copy, Debug, PartialEq, Eq, Structural)]
pub enum DecodeError {
    /// The short URL yields no usable code segment, or a character of the
    /// code segment is outside the 62-symbol alphabet.
    MalformedShortCode,
    /// The code segment decodes to an identifier that this codec never
    /// issued.
    UnknownIdentifier,
}

/// One stored association: an identifier, the long URL it was assigned to,
/// and the base-62 short code that renders the identifier.
pub struct Record {
    pub id: usize,
    pub long_url: String,
    pub short_code: String,
}

/// The URL-shortening codec.
///
/// It owns the alphabet, the base URL prefix, the identifier counter and
/// the append-only store of records.  The store doubles as the reverse
/// index: a long URL is registered exactly when some record holds it.
pub struct Codec {
    alphabet: String,
    base_url: String,
    current_id: usize,
    records: Vec<Record>,
}

impl Codec {
    /// The long URLs this codec has registered, in order of first encode.
    /// The record of the URL at index `i` holds identifier `i + 1`.
    pub closed spec fn urls(self) -> Seq<Seq<char>> {
        self.records@.map_values(|r: Record| r.long_url@)
    }

    /// Well-formedness: the alphabet and base prefix are the fixed ones,
    /// the counter is one past the last issued identifier, record `i`
    /// holds identifier `i + 1` and its code, and no two records share a
    /// long URL.
    pub closed spec fn wf(self) -> bool {
        &&& self.alphabet@ == alphabet()
        &&& self.base_url@ == base_url_spec()
        &&& self.current_id == self.records@.len() + 1
        &&& forall|i: int|
            0 <= i < self.records@.len() ==> (#[trigger] self.records@[i]).id == i + 1
        &&& forall|i: int|
            0 <= i < self.records@.len() ==> (#[trigger] self.records@[i]).short_code@ == code_of(
                (i + 1) as nat,
            )
        &&& forall|i: int, j: int|
            #![trigger self.records@[i], self.records@[j]]
            0 <= i < j < self.records@.len() ==> self.records@[i].long_url@
                != self.records@[j].long_url@
    }

    /// Builds a codec with the fixed alphabet and base URL prefix, the
    /// identifier counter at 1, and an empty store.
    pub fn new() -> (codec: Codec)
        ensures
            codec.wf(),
            codec.urls() == Seq::<Seq<char>>::empty(),
    {
        let codec = Codec {
            alphabet: String::from_str(
                "abcdefghijklmnopqrstuvwxyzABCDEFGHIJKLMNOPQRSTUVWXYZ0123456789",
            ),
            base_url: String::from_str("http://tinyurl.com/"),
            current_id: 1,
            records: Vec::new(),
        };
        proof {
            assert(codec.urls() =~= Seq::<Seq<char>>::empty());
        }
        codec
    }

    /// Registers a new long URL under the next identifier: appends the
    /// record, adds the reverse entry, and advances the counter by one.
    /// The caller supplies the identifier's own base-62 code.
    pub fn insert(&mut self, long_url: String, short_code: &str)
        requires
            old(self).wf(),
            !old(self).urls().contains(long_url@),
            short_code@ == code_of((old(self).urls().len() + 1) as nat),
            old(self).urls().len() + 2 <= usize::MAX,
        ensures
            final(self).wf(),
            final(self).urls() == old(self).urls().push(long_url@),
    {
        let record = Record { id: self.current_id, long_url, short_code: short_code.to_owned() };
        self.records.push(record);
        self.current_id = self.current_id + 1;
        proof {
            assert(self.urls() =~= old(self).urls().push(record.long_url@));
            assert forall|i: int, j: int|
                #![trigger self.records@[i], self.records@[j]]
                0 <= i < j < self.records@.len() implies self.records@[i].long_url@
                != self.records@[j].long_url@ by {
                if j == self.records@.len() - 1 {
                    assert(old(self).urls()[i] == self.records@[i].long_url@);
                }
            }
        }
    }

    /// Encodes a long URL to a short URL.
    ///
    /// A URL seen before is answered with the same short URL as its
    /// first encode, and nothing changes — in particular the identifier
    /// counter does not advance.  A new URL is registered under the next
    /// identifier and answered with the base prefix followed by that
    /// identifier's base-62 code.
    pub fn encode(&mut self, long_url: String) -> (result: String)
        requires
            old(self).wf(),
            old(self).urls().len() + 2 <= usize::MAX,
        ensures
            final(self).wf(),
            final(self).urls() == urls_after(old(self).urls(), long_url@),
            result@ == short_url_of(final(self).urls(), long_url@),
            old(self).urls().contains(long_url@) ==> *final(self) == *old(self),
    {
        let ghost us = old(self).urls();
        let n = self.records.len();
        let mut i: usize = 0;
        while i < n
            invariant
                i <= n,
                *self == *old(self),
                old(self).wf(),
                us == old(self).urls(),
                n == old(self).records@.len(),
                forall|j: int| 0 <= j < i ==> old(self).records@[j].long_url@ != long_url@,
            decreases n - i,
        {
            if self.records[i].long_url == long_url {
                proof {
                    let ghost fi = first_index(us, long_url@);
                    assert(us.len() == n as int);
                    assert(us[i as int] == old(self).records@[i as int].long_url@);
                    lemma_first_index(us, long_url@);
                    assert forall|j: int| 0 <= j < i implies us[j] != long_url@ by {
                        assert(us[j] == old(self).records@[j].long_url@);
                    }
                    assert(fi == i);
                }
                return self.base_url.clone().concat(self.records[i].short_code.as_str());
            }
            i += 1;
        }
        proof {
            assert(us.len() == n as int);
            assert forall|j: int| 0 <= j < us.len() implies us[j] != long_url@ by {
                assert(us[j] == old(self).records@[j].long_url@);
            }
            lemma_alphabet();
            lemma_code_of((n + 1) as nat);
        }
        let ghost target = code_of((n + 1) as nat);
        let mut id = self.current_id;
        let mut code = String::new();
        proof {
            assert(code@ + code_of(id as nat) =~= target);
        }
        while id != 0
            invariant
                *self == *old(self),
                old(self).wf(),
                n == old(self).records@.len(),
                id <= n + 1,
                code@ + code_of(id as nat) == target,
            decreases id,
        {
            let d = id % 62;
            proof {
                lemma_alphabet();
            }
            let sym = self.alphabet.as_str().substring_char(d, d + 1);
            proof {
                assert(sym@ =~= seq![alphabet()[d as int]]);
                assert(code_of(id as nat) =~= sym@ + code_of((id / 62) as nat)) by {
                    let ds = digits_of(id as nat);
                    assert forall|k: int| 0 <= k < ds.len() implies code_of(id as nat)[k] == (sym@
                        + code_of((id / 62) as nat))[k] by {
                        if k > 0 {
                            assert(ds[k] == digits_of((id / 62) as nat)[k - 1]);
                        }
                    }
                }
                assert((code@ + sym@) + code_of((id / 62) as nat) =~= code@ + code_of(id as nat));
            }
            code.append(sym);
            id = id / 62;
        }
        proof {
            assert(code@ + code_of(0) =~= code@);
            assert(code@ == target);
            lemma_first_index(us.push(long_url@), long_url@);
            assert(first_index(us.push(long_url@), long_url@) == n) by {
                let fi = first_index(us.push(long_url@), long_url@);
                assert(us.push(long_url@)[n as int] == long_url@);
                if fi < n {
                    assert(us.push(long_url@)[fi] == us[fi]);
                }
            }
        }
        self.insert(long_url, code.as_str());
        self.base_url.clone().concat(code.as_str())
    }

    /// Decodes a short URL to its original long URL.
    ///
    /// The substring after the last `'/'` is read as a base-62 code,
    /// least-significant symbol first.  An empty segment or a symbol
    /// outside the alphabet is malformed; a well-formed code whose value
    /// is no issued identifier is unknown.
    pub fn decode(&self, short_url: String) -> (result: Result<String, DecodeError>)
        requires
            self.wf(),
        ensures
            match result {
                Result::Ok(u) => decode_spec(self.urls(), short_url@) == Result::<
                    Seq<char>,
                    DecodeError,
                >::Ok(u@),
                Result::Err(e) => decode_spec(self.urls(), short_url@) == Result::<
                    Seq<char>,
                    DecodeError,
                >::Err(e),
            },
    {
        let s = short_url.as_str();
        let sn = s.unicode_len();
        let mut start: usize = 0;
        let mut i: usize = 0;
        while i < sn
            invariant
                start <= i <= sn,
                sn == s@.len(),
                start > 0 ==> s@[start as int - 1] == '/',
                forall|j: int| start <= j < i ==> s@[j] != '/',
            decreases sn - i,
        {
            if s.get_char(i) == '/' {
                start = i + 1;
            }
            i += 1;
        }
        proof {
            lemma_code_segment_from(s@, start as int);
            assert(code_segment(s@) =~= s@.subrange(start as int, sn as int));
        }
        let code = s.substring_char(start, sn);
        let m = sn - start;
        if m == 0 {
            return Result::Err(DecodeError::MalformedShortCode);
        }
        let mut vals: Vec<usize> = Vec::new();
        let mut k: usize = 0;
        while k < m
            invariant
                k <= m,
                m >= 1,
                m == code@.len(),
                code_segment(short_url@) == code@,
                vals@.len() == k as int,
                forall|j: int| 0 <= j < k ==> 0 <= #[trigger] vals@[j] < 62,
                forall|j: int|
                    0 <= j < k ==> vals@[j] == sym_val(#[trigger] code@[j]),
            decreases m - k,
        {
            let c = code.get_char(k);
            match symbol_value(c) {
                Option::Some(v) => {
                    vals.push(v);
                },
                Option::None => {
                    proof {
                        assert(sym_val(code@[k as int]) == -1);
                        assert(!code_wf(code@));
                    }
                    return Result::Err(DecodeError::MalformedShortCode);
                },
            }
            k += 1;
        }
        let ghost ds = vals_of(code@);
        proof {
            assert(ds.len() == m as int);
            assert(forall|j: int| 0 <= j < m ==> ds[j] == sym_val(#[trigger] code@[j]));
            assert(ds.skip(m as int) =~= Seq::<int>::empty());
            assert(code_wf(code@));
        }
        let mut acc: usize = 0;
        let mut t: usize = m;
        while t > 0
            invariant
                t <= m,
                m >= 1,
                m == code@.len(),
                vals@.len() == m as int,
                ds == vals_of(code@),
                code_wf(code@),
                code_segment(short_url@) == code@,
                forall|j: int| 0 <= j < m ==> 0 <= #[trigger] vals@[j] < 62,
                forall|j: int| 0 <= j < m ==> vals@[j] == ds[j],
                acc == value_of(ds.skip(t as int)),
                self.wf(),
                self.urls().len() < usize::MAX,
            decreases t,
        {
            t = t - 1;
            let v = vals[t];
            proof {
                assert(ds.skip(t as int).drop_first() =~= ds.skip(t as int + 1));
                assert(value_of(ds.skip(t as int)) == ds[t as int] + 62 * acc);
                assert(forall|j: int| 0 <= j < ds.len() ==> #[trigger] ds[j] >= 0);
            }
            let scaled = match acc.checked_mul(62) {
                Option::Some(x) => x,
                Option::None => {
                    proof {
                        lemma_value_skip(ds, t as int);
                    }
                    return Result::Err(DecodeError::UnknownIdentifier);
                },
            };
            acc = match scaled.checked_add(v) {
                Option::Some(x) => x,
                Option::None => {
                    proof {
                        lemma_value_skip(ds, t as int);
                    }
                    return Result::Err(DecodeError::UnknownIdentifier);
                },
            };
        }
        proof {
            assert(ds.skip(0) =~= ds);
            assert(acc == code_value(code@));
        }
        if acc >= 1 && acc <= self.records.len() {
            proof {
                assert(self.urls()[acc - 1] == self.records@[acc - 1].long_url@);
            }
            Result::Ok(self.records[acc - 1].long_url.clone())
        } else {
            Result::Err(DecodeError::UnknownIdentifier)
        }
    }
}

/// Round-trip law: decoding the short URL of a registered long URL —
/// the base prefix followed by the code of its identifier — yields
/// exactly that long URL.  With the contracts of `encode` and `decode`,
/// `decode(encode(u))` returns `Ok` of `u` for every `u`.
pub proof fn lemma_round_trip(us: Seq<Seq<char>>, i: int)
    requires
        0 <= i < us.len(),
    ensures
        decode_spec(us, short_url_at(i + 1)) == Result::<Seq<char>, DecodeError>::Ok(us[i]),
{
    let s = short_url_at(i + 1);
    let n = (i + 1) as nat;
    lemma_code_of(n);
    lemma_alphabet();
    reveal_strlit("http://tinyurl.com/");
    let bl = base_url_spec().len() as int;
    assert(s[bl - 1] == '/');
    assert forall|j: int| bl <= j < s.len() implies s[j] != '/' by {
        assert(s[j] == code_of(n)[j - bl]);
        assert(sym_val(code_of(n)[j - bl]) >= 0);
        assert(sym_val('/') == -1);
    }
    lemma_code_segment_from(s, bl);
    assert(s.skip(bl) =~= code_of(n));
}

/// Idempotence law: encoding a URL that is already registered leaves
/// the registered URLs unchanged and yields the same short URL as the
/// first encode did.  By `encode`'s contract the whole codec state,
/// identifier counter included, is unchanged on such a call.
pub proof fn lemma_encode_idempotent(us: Seq<Seq<char>>, u: Seq<char>)
    ensures
        urls_after(urls_after(us, u), u) == urls_after(us, u),
        short_url_of(urls_after(urls_after(us, u), u), u) == short_url_of(urls_after(us, u), u),
{
    if !us.contains(u) {
        assert(us.push(u)[us.len() as int] == u);
        assert(us.push(u).contains(u));
    }
}

/// Distinctness law: two different long URLs, encoded one after the
/// other, receive different short URLs.
pub proof fn lemma_encode_distinct(us: Seq<Seq<char>>, u1: Seq<char>, u2: Seq<char>)
    requires
        u1 != u2,
    ensures
        short_url_of(urls_after(us, u1), u1) != short_url_of(
            urls_after(urls_after(us, u1), u2),
            u2,
        ),
{
    let us1 = urls_after(us, u1);
    let us2 = urls_after(us1, u2);
    if !us.contains(u1) {
        assert(us.push(u1)[us.len() as int] == u1);
    }
    assert(us1.contains(u1));
    if !us1.contains(u2) {
        assert(us1.push(u2)[us1.len() as int] == u2);
    }
    assert(us2.contains(u2));
    lemma_first_index(us1, u1);
    lemma_first_index(us2, u2);
    let i = first_index(us1, u1);
    let j = first_index(us2, u2);
    assert(us2[i] == us1[i]);
    assert(i != j);
    lemma_code_of_injective((i + 1) as nat, (j + 1) as nat);
    let bl = base_url_spec().len() as int;
    if short_url_at(i + 1) == short_url_at(j + 1) {
        assert(short_url_at(i + 1).skip(bl) =~= code_of((i + 1) as nat));
        assert(short_url_at(j + 1).skip(bl) =~= code_of((j + 1) as nat));
    }
}

/// Unknown-code rejection law: a syntactically valid code whose value
/// is no issued identifier is answered with `UnknownIdentifier`, never
/// with a substitute URL.
pub proof fn lemma_unknown_code_rejected(us: Seq<Seq<char>>, s: Seq<char>)
    requires
        code_wf(code_segment(s)),
        !(1 <= code_value(code_segment(s)) <= us.len()),
    ensures
        decode_spec(us, s) == Result::<Seq<char>, DecodeError>::Err(
            DecodeError::UnknownIdentifier,
        ),
{
}

/// Monotonic-allocation law: when a long URL is first encoded after
/// `us.len()` other distinct URLs, it is stored at index `us.len()` and
/// so receives identifier `us.len() + 1` — the n-th distinct URL ever
/// encoded receives identifier n.
pub proof fn lemma_monotonic_allocation(us: Seq<Seq<char>>, u: Seq<char>)
    requires
        !us.contains(u),
    ensures
        first_index(urls_after(us, u), u) == us.len(),
        short_url_of(urls_after(us, u), u) == short_url_at(us.len() as int + 1),
{
    assert(us.push(u)[us.len() as int] == u);
    lemma_first_index(us.push(u), u);
    let fi = first_index(us.push(u), u);
    if fi < us.len() {
        assert(us.push(u)[fi] == us[fi]);
    }
}

} // verus!
