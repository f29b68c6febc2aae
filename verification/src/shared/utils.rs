//! Interning of strings into one contiguous buffer.

use vstd::prelude::*;
use vstd::utf8::encode_utf8;

verus! {

/// A window of a string buffer, in bytes.
#[derive(Debug, Clone, Copy, PartialEq, Eq, Structural)]
pub struct Slice {
    pub start_idx: u32,
    pub count: u32,
}

/// The abstract state of a [`StrSliceMap`]: the buffer (absent once taken)
/// and the slice recorded for each interned string.
#[verifier::ext_equal]
pub struct StrSliceMapView {
    pub buffer: Option<Seq<char>>,
    pub slices: Map<Seq<char>, Slice>,
}

/// The UTF-8 bytes of a character sequence.
pub open spec fn bytes(s: Seq<char>) -> Seq<u8> {
    encode_utf8(s)
}

/// The state and result of interning `key`: a string seen before gets its
/// recorded slice back and nothing changes; a new one is appended to the
/// buffer (a fresh empty buffer if it was taken) and recorded.
pub open spec fn spec_get_slice(v: StrSliceMapView, key: Seq<char>) -> (StrSliceMapView, Slice) {
    if v.slices.contains_key(key) {
        (v, v.slices[key])
    } else {
        let buf = match v.buffer {
            Some(b) => b,
            None => Seq::<char>::empty(),
        };
        let slice = Slice {
            start_idx: (bytes(buf).len() as usize) as u32,
            count: (bytes(key).len() as usize) as u32,
        };
        (StrSliceMapView { buffer: Some(buf + key), slices: v.slices.insert(key, slice) }, slice)
    }
}

/// The bytes of `buffer` at `slice` are those of `key`.
pub open spec fn reads_back(buffer: Seq<char>, key: Seq<char>, slice: Slice) -> bool {
    &&& slice.start_idx + slice.count <= bytes(buffer).len()
    &&& bytes(buffer).subrange(slice.start_idx as int, slice.start_idx + slice.count) == bytes(key)
}

/// The buffer is present and every recorded slice reads back its string.
pub open spec fn all_read_back(v: StrSliceMapView) -> bool {
    &&& v.buffer is Some
    &&& forall|k: Seq<char>| #[trigger]
        v.slices.contains_key(k) ==> reads_back(v.buffer.unwrap(), k, v.slices[k])
}

/// The bytes of a concatenation are the concatenation of the bytes.
pub proof fn lemma_bytes_concat(a: Seq<char>, b: Seq<char>)
    ensures
        bytes(a + b) == bytes(a) + bytes(b),
    decreases a.len(),
{
    if a.len() > 0 {
        assert((a + b).drop_first() =~= a.drop_first() + b);
        lemma_bytes_concat(a.drop_first(), b);
        assert(bytes(a + b) == vstd::utf8::encode_scalar((a + b)[0] as u32) + bytes(
            (a + b).drop_first(),
        ));
        assert((a + b)[0] == a[0]);
    } else {
        assert(a + b =~= b);
    }
}

/// Interning a string yields a slice at which the buffer holds that string's
/// bytes, and every earlier slice keeps reading back its string, as long as
/// the buffer's length fits the 32-bit slice fields.
pub proof fn lemma_get_slice_reads_back(v: StrSliceMapView, key: Seq<char>)
    requires
        all_read_back(v),
        bytes(v.buffer.unwrap()).len() + bytes(key).len() <= u32::MAX,
    ensures
        all_read_back(spec_get_slice(v, key).0),
        reads_back(spec_get_slice(v, key).0.buffer.unwrap(), key, spec_get_slice(v, key).1),
{
    if !v.slices.contains_key(key) {
        let b = v.buffer.unwrap();
        let (w, s) = spec_get_slice(v, key);
        lemma_bytes_concat(b, key);
        let nb = bytes(b + key);
        assert forall|k: Seq<char>| #[trigger] w.slices.contains_key(k) implies reads_back(
            w.buffer.unwrap(),
            k,
            w.slices[k],
        ) by {
            if k == key {
                assert(nb.subrange(s.start_idx as int, s.start_idx + s.count) =~= bytes(key));
            } else {
                let t = v.slices[k];
                assert(reads_back(b, k, t));
                assert(nb.subrange(t.start_idx as int, t.start_idx + t.count) =~= bytes(
                    b,
                ).subrange(t.start_idx as int, t.start_idx + t.count));
            }
        }
        assert(w.slices.contains_key(key));
    } else {
        assert(v.slices.contains_key(key));
    }
}

/// Interning the same string twice gives the same slice, and the second
/// time changes nothing.
pub proof fn lemma_get_slice_idempotent(v: StrSliceMapView, key: Seq<char>)
    ensures
        spec_get_slice(spec_get_slice(v, key).0, key) == spec_get_slice(v, key),
{
}

/// The state of a fresh map: an empty buffer and no string.
pub open spec fn fresh_view() -> StrSliceMapView {
    StrSliceMapView { buffer: Some(Seq::<char>::empty()), slices: Map::empty() }
}

/// Interning `keys` in order, from `v`.
pub open spec fn intern_all(v: StrSliceMapView, keys: Seq<Seq<char>>) -> StrSliceMapView
    decreases keys.len(),
{
    if keys.len() == 0 {
        v
    } else {
        spec_get_slice(intern_all(v, keys.drop_last()), keys.last()).0
    }
}

/// The distinct strings of `keys`, in the order they were first requested.
pub open spec fn first_requests(keys: Seq<Seq<char>>) -> Seq<Seq<char>>
    decreases keys.len(),
{
    if keys.len() == 0 {
        Seq::empty()
    } else {
        let f = first_requests(keys.drop_last());
        if f.contains(keys.last()) {
            f
        } else {
            f.push(keys.last())
        }
    }
}

/// The strings of `ks`, one after the other.
pub open spec fn concat_all(ks: Seq<Seq<char>>) -> Seq<char>
    decreases ks.len(),
{
    if ks.len() == 0 {
        Seq::empty()
    } else {
        concat_all(ks.drop_last()) + ks.last()
    }
}

/// The bytes of a prefix's first requests fit where those of all do.
proof fn lemma_first_requests_grow(keys: Seq<Seq<char>>)
    requires
        keys.len() > 0,
    ensures
        bytes(concat_all(first_requests(keys.drop_last()))).len() <= bytes(concat_all(first_requests(keys))).len(),
{
    let f = first_requests(keys.drop_last());
    if !f.contains(keys.last()) {
        assert(f.push(keys.last()).drop_last() =~= f);
        lemma_bytes_concat(concat_all(f), keys.last());
    }
}

/// Interning strings one after the other into a fresh map: the buffer is
/// the distinct strings in the order first requested, a string is recorded
/// exactly where it was requested, each request is answered with the slice
/// recorded for its string in the end, and every slice reads back its
/// string, as long as the buffer's length fits the 32-bit slice fields.
pub proof fn lemma_intern_all(keys: Seq<Seq<char>>)
    requires
        bytes(concat_all(first_requests(keys))).len() <= u32::MAX,
    ensures
        intern_all(fresh_view(), keys).buffer == Some(concat_all(first_requests(keys))),
        forall|k: Seq<char>| #[trigger] intern_all(fresh_view(), keys).slices.contains_key(k) <==> keys.contains(k),
        forall|k: Seq<char>| #[trigger] intern_all(fresh_view(), keys).slices.contains_key(k) <==> first_requests(keys).contains(k),
        all_read_back(intern_all(fresh_view(), keys)),
        forall|i: int|
            0 <= i < keys.len() ==> #[trigger] spec_get_slice(intern_all(fresh_view(), keys.take(i)), keys[i]).1
                == intern_all(fresh_view(), keys).slices[keys[i]],
    decreases keys.len(),
{
    let w = intern_all(fresh_view(), keys);
    if keys.len() == 0 {
        assert(all_read_back(w));
    } else {
        let rest = keys.drop_last();
        let k = keys.last();
        lemma_first_requests_grow(keys);
        lemma_intern_all(rest);
        let v = intern_all(fresh_view(), rest);
        let f = first_requests(rest);
        if !f.contains(k) {
            assert(!v.slices.contains_key(k));
            lemma_bytes_concat(concat_all(f), k);
            assert(f.push(k).drop_last() =~= f);
            assert(concat_all(f.push(k)) == concat_all(f) + k);
            lemma_get_slice_reads_back(v, k);
        } else {
            assert(v.slices.contains_key(k));
            assert(w == v);
        }
        assert forall|c: Seq<char>| #[trigger] w.slices.contains_key(c) <==> keys.contains(c) by {
            if keys.contains(c) && c != k {
                let j = choose|j: int| 0 <= j < keys.len() && keys[j] == c;
                assert(rest[j] == c);
            }
            if rest.contains(c) {
                let j = choose|j: int| 0 <= j < rest.len() && rest[j] == c;
                assert(keys[j] == c);
            }
            assert(keys[keys.len() - 1] == k);
        }
        assert forall|c: Seq<char>| #[trigger] w.slices.contains_key(c) <==> first_requests(keys).contains(c) by {
            if !f.contains(k) {
                if f.push(k).contains(c) && c != k {
                    let j = choose|j: int| 0 <= j < f.push(k).len() && f.push(k)[j] == c;
                    assert(f[j] == c);
                }
                if f.contains(c) {
                    let j = choose|j: int| 0 <= j < f.len() && f[j] == c;
                    assert(f.push(k)[j] == c);
                }
                assert(f.push(k)[f.len() as int] == k);
            }
        }
        assert forall|i: int| 0 <= i < keys.len() implies #[trigger] spec_get_slice(
            intern_all(fresh_view(), keys.take(i)),
            keys[i],
        ).1 == w.slices[keys[i]] by {
            if i < keys.len() - 1 {
                assert(keys.take(i) =~= rest.take(i));
                assert(keys[i] == rest[i]);
                assert(spec_get_slice(intern_all(fresh_view(), rest.take(i)), rest[i]).1 == v.slices[rest[i]]);
                assert(v.slices.contains_key(rest[i])) by {
                    assert(rest.contains(rest[i]));
                }
            } else {
                assert(keys.take(i) =~= rest);
            }
        }
    }
}

/// Interning strings into a fresh map never gives two distinct strings the
/// same slice.
pub proof fn lemma_distinct_slices(keys: Seq<Seq<char>>, k1: Seq<char>, k2: Seq<char>)
    requires
        bytes(concat_all(first_requests(keys))).len() <= u32::MAX,
        intern_all(fresh_view(), keys).slices.contains_key(k1),
        intern_all(fresh_view(), keys).slices.contains_key(k2),
        intern_all(fresh_view(), keys).slices[k1] == intern_all(fresh_view(), keys).slices[k2],
    ensures
        k1 == k2,
{
    lemma_intern_all(keys);
    let w = intern_all(fresh_view(), keys);
    assert(reads_back(w.buffer.unwrap(), k1, w.slices[k1]));
    assert(reads_back(w.buffer.unwrap(), k2, w.slices[k2]));
    vstd::utf8::encode_utf8_decode_utf8(k1);
    vstd::utf8::encode_utf8_decode_utf8(k2);
}

/// `String::with_capacity`: an empty string.
#[verifier::external_body]
fn string_with_capacity(capacity: usize) -> (s: String)
    ensures
        s@ == Seq::<char>::empty(),
{
    String::with_capacity(capacity)
}

/// `String::push_str`: appends `t` to `s`. Growing a string past
/// `isize::MAX` bytes panics; no string here comes near that, and the
/// contract leaves it unsaid, as vstd's does for `Vec::push`.
#[verifier::external_body]
fn string_push_str(s: &mut String, t: &str)
    ensures
        final(s)@ == old(s)@ + t@,
{
    s.push_str(t)
}

/// The recorded slices of a list of entries, later entries winning.
pub open spec fn entries_map(e: Seq<(String, Slice)>) -> Map<Seq<char>, Slice>
    decreases e.len(),
{
    if e.len() == 0 {
        Map::empty()
    } else {
        entries_map(e.drop_last()).insert(e.last().0@, e.last().1)
    }
}

/// No two entries are recorded under the same string.
pub open spec fn distinct_keys(e: Seq<(String, Slice)>) -> bool {
    forall|i: int, j: int|
        0 <= i < e.len() && 0 <= j < e.len() && i != j ==> (#[trigger] e[i]).0@ != (
        #[trigger] e[j]).0@
}

proof fn lemma_entries_map(e: Seq<(String, Slice)>)
    requires
        distinct_keys(e),
    ensures
        forall|k: Seq<char>|
            #[trigger] entries_map(e).contains_key(k) <==> exists|i: int|
                0 <= i < e.len() && (#[trigger] e[i]).0@ == k,
        forall|i: int| 0 <= i < e.len() ==> entries_map(e)[(#[trigger] e[i]).0@] == e[i].1,
    decreases e.len(),
{
    if e.len() > 0 {
        let r = e.drop_last();
        assert(distinct_keys(r)) by {
            assert forall|i: int, j: int|
                0 <= i < r.len() && 0 <= j < r.len() && i != j implies (#[trigger] r[i]).0@ != (
                #[trigger] r[j]).0@ by {
                assert(r[i] == e[i] && r[j] == e[j]);
            }
        }
        lemma_entries_map(r);
        assert forall|k: Seq<char>|
            #[trigger] entries_map(e).contains_key(k) implies exists|i: int|
                0 <= i < e.len() && (#[trigger] e[i]).0@ == k by {
            if k == e.last().0@ {
                assert(e[e.len() - 1].0@ == k);
            } else {
                assert(entries_map(r).contains_key(k));
                let i = choose|i: int| 0 <= i < r.len() && (#[trigger] r[i]).0@ == k;
                assert(e[i] == r[i]);
            }
        }
        assert forall|k: Seq<char>|
            (exists|i: int| 0 <= i < e.len() && (#[trigger] e[i]).0@ == k) implies #[trigger] entries_map(
            e,
        ).contains_key(k) by {
            let i = choose|i: int| 0 <= i < e.len() && (#[trigger] e[i]).0@ == k;
            if i < e.len() - 1 {
                assert(r[i] == e[i]);
            }
        }
        assert forall|i: int| 0 <= i < e.len() implies entries_map(e)[(#[trigger] e[i]).0@]
            == e[i].1 by {
            if i < e.len() - 1 {
                assert(r[i] == e[i]);
                assert(e[i].0@ != e[e.len() - 1].0@);
            }
        }
    }
}

/// Interns strings into one buffer and hands out the slice of each.
pub struct StrSliceMap {
    buffer: Option<String>,
    /// One entry per interned string.
    buffer_map: Vec<(String, Slice)>,
}

impl View for StrSliceMap {
    type V = StrSliceMapView;

    closed spec fn view(&self) -> StrSliceMapView {
        StrSliceMapView {
            buffer: match self.buffer {
                Some(b) => Some(b@),
                None => None,
            },
            slices: entries_map(self.buffer_map@),
        }
    }
}

impl StrSliceMap {
    /// The entries are recorded under distinct strings.
    pub closed spec fn wf(&self) -> bool {
        distinct_keys(self.buffer_map@)
    }

    pub fn new() -> (m: StrSliceMap)
        ensures
            m.wf(),
            m@.buffer == Some(Seq::<char>::empty()),
            m@.slices == Map::<Seq<char>, Slice>::empty(),
    {
        StrSliceMap { buffer: Some(string_with_capacity(1024)), buffer_map: Vec::with_capacity(1024) }
    }

    fn lookup(&self, key: &String) -> (r: Option<Slice>)
        requires
            self.wf(),
        ensures
            r == (if self@.slices.contains_key(key@) {
                Some(self@.slices[key@])
            } else {
                None
            }),
    {
        let n = self.buffer_map.len();
        let mut i: usize = 0;
        while i < n
            invariant
                n == self.buffer_map@.len(),
                i <= n,
                self.wf(),
                forall|j: int| 0 <= j < i ==> (#[trigger] self.buffer_map@[j]).0@ != key@,
            decreases n - i,
        {
            if self.buffer_map[i].0 == *key {
                proof {
                    lemma_entries_map(self.buffer_map@);
                    assert(self.buffer_map@[i as int].0@ == key@);
                }
                return Some(self.buffer_map[i].1);
            }
            i += 1;
        }
        proof {
            lemma_entries_map(self.buffer_map@);
        }
        None
    }

    /// The slice of `key` in the buffer, appending `key` to the buffer the
    /// first time it is seen.
    pub fn get_slice(&mut self, key: String) -> (r: Slice)
        requires
            old(self).wf(),
        ensures
            final(self).wf(),
            (final(self)@, r) == spec_get_slice(old(self)@, key@),
    {
        if let Some(slice) = self.lookup(&key) {
            return slice;
        }
        let mut buf = match self.buffer.take() {
            Some(b) => b,
            None => string_with_capacity(1024),
        };
        let slice = Slice { start_idx: buf.as_str().len() as u32, count: key.as_str().len() as u32 };
        string_push_str(&mut buf, key.as_str());
        self.buffer = Some(buf);
        let ghost old_entries = self.buffer_map@;
        self.buffer_map.push((key, slice));
        proof {
            lemma_entries_map(old_entries);
            assert(self.buffer_map@.drop_last() == old_entries);
            assert(distinct_keys(self.buffer_map@)) by {
                assert forall|i: int, j: int|
                    0 <= i < self.buffer_map@.len() && 0 <= j < self.buffer_map@.len() && i
                        != j implies (#[trigger] self.buffer_map@[i]).0@ != (
                    #[trigger] self.buffer_map@[j]).0@ by {
                    if i < old_entries.len() && j < old_entries.len() {
                        assert(self.buffer_map@[i] == old_entries[i]);
                        assert(self.buffer_map@[j] == old_entries[j]);
                    } else if i < old_entries.len() {
                        assert(self.buffer_map@[i] == old_entries[i]);
                        assert(entries_map(old_entries).contains_key(old_entries[i].0@));
                    } else {
                        assert(self.buffer_map@[j] == old_entries[j]);
                        assert(entries_map(old_entries).contains_key(old_entries[j].0@));
                    }
                }
            }
            assert(self@.slices =~= spec_get_slice(old(self)@, key@).0.slices);
            assert(self@ =~= spec_get_slice(old(self)@, key@).0);
        }
        slice
    }

    /// Hands out the buffer, leaving none behind (an empty string if it was
    /// already taken). The recorded slices stay.
    pub fn take(&mut self) -> (s: String)
        ensures
            final(self).wf() == old(self).wf(),
            s@ == (match old(self)@.buffer {
                Some(b) => b,
                None => Seq::<char>::empty(),
            }),
            final(self)@.buffer == None::<Seq<char>>,
            final(self)@.slices == old(self)@.slices,
    {
        match self.buffer.take() {
            Some(b) => b,
            None => String::new(),
        }
    }
}

} // verus!
