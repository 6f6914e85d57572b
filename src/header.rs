//! Header field names, values and the header map of a message.

use crate::ascii::{bytes_are_ascii, ascii_seq, InvalidAsciiError};
use smallvec::SmallVec;
use vstd::prelude::*;
use vstd::slice::slice_to_vec;
use crate::scan::tchar;

verus! {

/// The ASCII lowercase of a byte.
pub open spec fn lower(b: u8) -> u8 {
    if 65 <= b <= 90 {
        (b + 32) as u8
    } else {
        b
    }
}

pub open spec fn lower_seq(s: Seq<u8>) -> Seq<u8> {
    Seq::new(s.len(), |i: int| lower(s[i]))
}

/// Compares two byte strings ignoring ASCII case.
pub fn eq_ignore_case(a: &[u8], b: &[u8]) -> (r: bool)
    ensures
        r == (lower_seq(a@) == lower_seq(b@)),
{
    if a.len() != b.len() {
        proof {
            assert(lower_seq(a@).len() != lower_seq(b@).len());
        }
        return false;
    }
    let mut i: usize = 0;
    while i < a.len()
        invariant
            a@.len() == b@.len(),
            i <= a@.len(),
            forall|j: int| 0 <= j < i ==> lower(a@[j]) == lower(b@[j]),
        decreases a@.len() - i,
    {
        let x = if 65 <= a[i] && a[i] <= 90 { a[i] + 32 } else { a[i] };
        let y = if 65 <= b[i] && b[i] <= 90 { b[i] + 32 } else { b[i] };
        if x != y {
            proof {
                assert(lower_seq(a@)[i as int] != lower_seq(b@)[i as int]);
            }
            return false;
        }
        i += 1;
    }
    proof {
        assert(lower_seq(a@) =~= lower_seq(b@));
    }
    true
}

/// The header names that this library knows by their canonical spelling.
#[derive(Debug, Clone, Copy, PartialEq, Eq, Hash, Structural)]
pub enum Builtin {
    Host,
    Connection,
    ContentLength,
    TransferEncoding,
    SetCookie,
    ContentLocation,
    ContentType,
    Date,
    Trailer,
}

/// The canonical spelling of a known header name.
pub open spec fn builtin_name(b: Builtin) -> Seq<u8> {
    match b {
        Builtin::Host => seq![72u8, 111u8, 115u8, 116u8],  // Host
        Builtin::Connection => seq![67u8, 111u8, 110u8, 110u8, 101u8, 99u8, 116u8, 105u8, 111u8, 110u8],  // Connection
        Builtin::ContentLength => seq![67u8, 111u8, 110u8, 116u8, 101u8, 110u8, 116u8, 45u8, 76u8, 101u8, 110u8, 103u8, 116u8, 104u8],  // Content-Length
        Builtin::TransferEncoding => seq![84u8, 114u8, 97u8, 110u8, 115u8, 102u8, 101u8, 114u8, 45u8, 69u8, 110u8, 99u8, 111u8, 100u8, 105u8, 110u8, 103u8],  // Transfer-Encoding
        Builtin::SetCookie => seq![83u8, 101u8, 116u8, 45u8, 67u8, 111u8, 111u8, 107u8, 105u8, 101u8],  // Set-Cookie
        Builtin::ContentLocation => seq![67u8, 111u8, 110u8, 116u8, 101u8, 110u8, 116u8, 45u8, 76u8, 111u8, 99u8, 97u8, 116u8, 105u8, 111u8, 110u8],  // Content-Location
        Builtin::ContentType => seq![67u8, 111u8, 110u8, 116u8, 101u8, 110u8, 116u8, 45u8, 84u8, 121u8, 112u8, 101u8],  // Content-Type
        Builtin::Date => seq![68u8, 97u8, 116u8, 101u8],  // Date
        Builtin::Trailer => seq![84u8, 114u8, 97u8, 105u8, 108u8, 101u8, 114u8],  // Trailer
    }
}

/// The known header name that `s` spells, ignoring case.
pub open spec fn builtin_of(s: Seq<u8>) -> Option<Builtin> {
    if lower_seq(s) == lower_seq(builtin_name(Builtin::Host)) {
        Some(Builtin::Host)
    } else if lower_seq(s) == lower_seq(builtin_name(Builtin::Connection)) {
        Some(Builtin::Connection)
    } else if lower_seq(s) == lower_seq(builtin_name(Builtin::ContentLength)) {
        Some(Builtin::ContentLength)
    } else if lower_seq(s) == lower_seq(builtin_name(Builtin::TransferEncoding)) {
        Some(Builtin::TransferEncoding)
    } else if lower_seq(s) == lower_seq(builtin_name(Builtin::SetCookie)) {
        Some(Builtin::SetCookie)
    } else if lower_seq(s) == lower_seq(builtin_name(Builtin::ContentLocation)) {
        Some(Builtin::ContentLocation)
    } else if lower_seq(s) == lower_seq(builtin_name(Builtin::ContentType)) {
        Some(Builtin::ContentType)
    } else if lower_seq(s) == lower_seq(builtin_name(Builtin::Date)) {
        Some(Builtin::Date)
    } else if lower_seq(s) == lower_seq(builtin_name(Builtin::Trailer)) {
        Some(Builtin::Trailer)
    } else {
        None
    }
}

impl Builtin {
    /// The canonical spelling.
    pub fn name(&self) -> (r: Vec<u8>)
        ensures
            r@ == builtin_name(*self),
    {
        let r = match self {
            Builtin::Host => vec![72, 111, 115, 116],  // Host
            Builtin::Connection => vec![67, 111, 110, 110, 101, 99, 116, 105, 111, 110],  // Connection
            Builtin::ContentLength => vec![67, 111, 110, 116, 101, 110, 116, 45, 76, 101, 110, 103, 116, 104],  // Content-Length
            Builtin::TransferEncoding => vec![84, 114, 97, 110, 115, 102, 101, 114, 45, 69, 110, 99, 111, 100, 105, 110, 103],  // Transfer-Encoding
            Builtin::SetCookie => vec![83, 101, 116, 45, 67, 111, 111, 107, 105, 101],  // Set-Cookie
            Builtin::ContentLocation => vec![67, 111, 110, 116, 101, 110, 116, 45, 76, 111, 99, 97, 116, 105, 111, 110],  // Content-Location
            Builtin::ContentType => vec![67, 111, 110, 116, 101, 110, 116, 45, 84, 121, 112, 101],  // Content-Type
            Builtin::Date => vec![68, 97, 116, 101],  // Date
            Builtin::Trailer => vec![84, 114, 97, 105, 108, 101, 114],  // Trailer
        };
        proof {
            assert(r@ =~= builtin_name(*self));
        }
        r
    }

    /// The known header name that `bytes` spells, ignoring case.
    pub fn from_bytes(bytes: &[u8]) -> (r: Option<Builtin>)
        ensures
            r == builtin_of(bytes@),
    {
        let n = Builtin::Host.name();
        if eq_ignore_case(bytes, n.as_slice()) {
            return Some(Builtin::Host);
        }
        let n = Builtin::Connection.name();
        if eq_ignore_case(bytes, n.as_slice()) {
            return Some(Builtin::Connection);
        }
        let n = Builtin::ContentLength.name();
        if eq_ignore_case(bytes, n.as_slice()) {
            return Some(Builtin::ContentLength);
        }
        let n = Builtin::TransferEncoding.name();
        if eq_ignore_case(bytes, n.as_slice()) {
            return Some(Builtin::TransferEncoding);
        }
        let n = Builtin::SetCookie.name();
        if eq_ignore_case(bytes, n.as_slice()) {
            return Some(Builtin::SetCookie);
        }
        let n = Builtin::ContentLocation.name();
        if eq_ignore_case(bytes, n.as_slice()) {
            return Some(Builtin::ContentLocation);
        }
        let n = Builtin::ContentType.name();
        if eq_ignore_case(bytes, n.as_slice()) {
            return Some(Builtin::ContentType);
        }
        let n = Builtin::Date.name();
        if eq_ignore_case(bytes, n.as_slice()) {
            return Some(Builtin::Date);
        }
        let n = Builtin::Trailer.name();
        if eq_ignore_case(bytes, n.as_slice()) {
            return Some(Builtin::Trailer);
        }
        None
    }
}

/// A header field name: a known one, or any other token.
#[derive(Debug, Clone)]
pub enum HeaderName {
    Builtin(Builtin),
    Custom(Vec<u8>),
}

/// The spelling of a header name.
pub open spec fn name_bytes(n: HeaderName) -> Seq<u8> {
    match n {
        HeaderName::Builtin(b) => builtin_name(b),
        HeaderName::Custom(v) => v@,
    }
}

/// Header names are compared ignoring case: two names are the same when their keys are.
pub open spec fn name_key(n: HeaderName) -> Seq<u8> {
    lower_seq(name_bytes(n))
}

impl HeaderName {
    pub fn builtin(builtin: Builtin) -> (r: HeaderName)
        ensures
            r == HeaderName::Builtin(builtin),
    {
        HeaderName::Builtin(builtin)
    }

    /// The header name spelled by `bytes`: the known one it spells ignoring case, else a
    /// custom name holding the bytes as they are.
    pub fn from_bytes(bytes: &[u8]) -> (r: HeaderName)
        ensures
            r matches HeaderName::Builtin(b) ==> builtin_of(bytes@) == Some(b),
            r matches HeaderName::Custom(v) ==> builtin_of(bytes@) is None && v@ == bytes@,
            name_key(r) == lower_seq(bytes@),
    {
        match Builtin::from_bytes(bytes) {
            Some(b) => HeaderName::Builtin(b),
            None => HeaderName::Custom(slice_to_vec(bytes)),
        }
    }

    /// As `from_bytes`, for ASCII bytes only.
    pub fn try_from(bytes: &[u8]) -> (r: Result<HeaderName, InvalidAsciiError>)
        ensures
            r is Ok == (builtin_of(bytes@) is Some || ascii_seq(bytes@)),
            r matches Ok(n) ==> name_key(n) == lower_seq(bytes@) && (n matches HeaderName::Custom(v)
                ==> v@ == bytes@),
            r matches Ok(HeaderName::Builtin(b)) ==> builtin_of(bytes@) == Some(b),
            r matches Ok(HeaderName::Custom(_)) ==> builtin_of(bytes@) is None,
    {
        if let Some(b) = Builtin::from_bytes(bytes) {
            return Ok(HeaderName::Builtin(b));
        }
        match bytes_are_ascii(bytes) {
            Ok(()) => Ok(HeaderName::Custom(slice_to_vec(bytes))),
            Err(e) => Err(e),
        }
    }

    /// The spelling of the name.
    pub fn as_bytes(&self) -> (r: Vec<u8>)
        ensures
            r@ == name_bytes(*self),
    {
        match self {
            HeaderName::Builtin(b) => b.name(),
            HeaderName::Custom(v) => v.clone(),
        }
    }

    /// Whether two names are the same, ignoring case.
    pub fn same(&self, other: &HeaderName) -> (r: bool)
        ensures
            r == (name_key(*self) == name_key(*other)),
    {
        let a = self.as_bytes();
        let b = other.as_bytes();
        eq_ignore_case(a.as_slice(), b.as_slice())
    }
}


/// The values of a field in a `smallvec::SmallVec` with room for one inline; opaque here.
#[verifier::external_body]
#[derive(Debug)]
pub struct SmallValues {
    inner: SmallVec<[Vec<u8>; 1]>,
}

impl Clone for SmallValues {
    /// Relies on `SmallVec`'s `Clone`: a new vector holding copies of the items.
    #[verifier::external_body]
    fn clone(&self) -> (r: Self)
        ensures
            small_items(r) == small_items(*self),
    {
        SmallValues { inner: self.inner.clone() }
    }
}

/// The byte strings a small vector holds, in order.
pub uninterp spec fn small_items(v: SmallValues) -> Seq<Seq<u8>>;

/// Relies on `SmallVec::new`: an empty vector.
#[verifier::external_body]
fn small_new() -> (r: SmallValues)
    ensures
        small_items(r) == Seq::<Seq<u8>>::empty(),
{
    SmallValues { inner: SmallVec::new() }
}

/// Relies on `SmallVec::push`: appends the item at the end.
#[verifier::external_body]
fn small_push(v: &mut SmallValues, item: Vec<u8>)
    ensures
        small_items(*final(v)) == small_items(*old(v)).push(item@),
{
    v.inner.push(item)
}

/// Relies on `SmallVec::len`: the number of items.
#[verifier::external_body]
fn small_len(v: &SmallValues) -> (r: usize)
    ensures
        r == small_items(*v).len(),
{
    v.inner.len()
}

/// Relies on `SmallVec::as_slice`: the items in order, here the one at `index`.
#[verifier::external_body]
fn small_get(v: &SmallValues, index: usize) -> (r: &[u8])
    requires
        index < small_items(*v).len(),
    ensures
        r@ == small_items(*v)[index as int],
{
    v.inner.as_slice()[index].as_slice()
}

/// The values of one header field, in the order they arrived.
#[derive(Debug, Clone)]
pub struct HeaderValue {
    values: SmallValues,
}

/// Values joined with `", "`, as a list-valued field is read.
pub open spec fn joined(vs: Seq<Seq<u8>>) -> Seq<u8>
    decreases vs.len(),
{
    if vs.len() == 0 {
        Seq::empty()
    } else if vs.len() == 1 {
        vs[0]
    } else {
        joined(vs.drop_last()) + seq![44u8, 32u8] + vs.last()
    }
}

impl HeaderValue {
    pub closed spec fn view(&self) -> Seq<Seq<u8>> {
        small_items(self.values)
    }

    pub fn new() -> (r: HeaderValue)
        ensures
            r.view() == Seq::<Seq<u8>>::empty(),
    {
        HeaderValue { values: small_new() }
    }

    pub fn push(&mut self, bytes: Vec<u8>)
        ensures
            final(self).view() == old(self).view().push(bytes@),
    {
        small_push(&mut self.values, bytes);
    }

    pub fn len(&self) -> (r: usize)
        ensures
            r == self.view().len(),
    {
        small_len(&self.values)
    }

    pub fn is_empty(&self) -> (r: bool)
        ensures
            r == (self.view().len() == 0),
    {
        small_len(&self.values) == 0
    }

    /// The value at `index`.
    pub fn get(&self, index: usize) -> (r: &[u8])
        requires
            index < self.view().len(),
        ensures
            r@ == self.view()[index as int],
    {
        small_get(&self.values, index)
    }

    /// The values joined with `", "`.
    pub fn collect(&self) -> (r: Vec<u8>)
        ensures
            r@ == joined(self.view()),
    {
        let mut out: Vec<u8> = Vec::new();
        let mut i: usize = 0;
        let n = small_len(&self.values);
        while i < n
            invariant
                n == self.view().len(),
                i <= n,
                out@ == joined(self.view().subrange(0, i as int)),
            decreases n - i,
        {
            let ghost vs = self.view().subrange(0, i + 1);
            proof {
                assert(vs.drop_last() =~= self.view().subrange(0, i as int));
            }
            if i > 0 {
                out.push(44);
                out.push(32);
            }
            append_bytes(&mut out, small_get(&self.values, i));
            proof {
                if i == 0 {
                    assert(out@ =~= vs[0]);
                } else {
                    assert(out@ =~= joined(vs.drop_last()) + seq![44u8, 32u8] + vs.last());
                }
            }
            i += 1;
        }
        proof {
            assert(self.view().subrange(0, n as int) =~= self.view());
        }
        out
    }
}

/// Appends the bytes of `s` to `out`.
pub fn append_bytes(out: &mut Vec<u8>, s: &[u8])
    ensures
        final(out)@ == old(out)@ + s@,
{
    let mut i: usize = 0;
    while i < s.len()
        invariant
            i <= s@.len(),
            out@ == old(out)@ + s@.subrange(0, i as int),
        decreases s@.len() - i,
    {
        out.push(s[i]);
        proof {
            assert(s@.subrange(0, i + 1) =~= s@.subrange(0, i as int).push(s@[i as int]));
        }
        i += 1;
    }
    proof {
        assert(s@.subrange(0, s@.len() as int) =~= s@);
    }
}

/// Index of the first occurrence of `k` in `ks` at or after `from`.
pub open spec fn key_index_from(ks: Seq<Seq<u8>>, from: int, k: Seq<u8>) -> Option<int>
    decreases ks.len() - from,
{
    if from < 0 || from >= ks.len() {
        None
    } else if ks[from] == k {
        Some(from)
    } else {
        key_index_from(ks, from + 1, k)
    }
}

pub proof fn lemma_key_index(ks: Seq<Seq<u8>>, from: int, k: Seq<u8>)
    requires
        0 <= from,
    ensures
        match key_index_from(ks, from, k) {
            Some(i) => from <= i < ks.len() && ks[i] == k && forall|j: int|
                from <= j < i ==> ks[j] != k,
            None => forall|j: int| from <= j < ks.len() ==> ks[j] != k,
        },
    decreases ks.len() - from,
{
    if from < ks.len() && ks[from] != k {
        lemma_key_index(ks, from + 1, k);
    }
}

pub proof fn lemma_key_index_first(ks: Seq<Seq<u8>>, from: int, k: Seq<u8>, i: int)
    requires
        0 <= from <= i < ks.len(),
        ks[i] == k,
        forall|j: int| from <= j < i ==> ks[j] != k,
    ensures
        key_index_from(ks, from, k) == Some(i),
    decreases i - from,
{
    if from < i {
        lemma_key_index_first(ks, from + 1, k, i);
    }
}

/// The header fields of a message: each name once, with its values in arrival order.
#[derive(Debug, Clone)]
pub struct HeaderMap {
    pub entries: Vec<(HeaderName, HeaderValue)>,
}

impl HeaderMap {
    /// The keys of the names, in entry order.
    pub open spec fn keys(&self) -> Seq<Seq<u8>> {
        self.entries@.map_values(|e: (HeaderName, HeaderValue)| name_key(e.0))
    }

    /// No name occurs twice.
    pub open spec fn wf(&self) -> bool {
        forall|i: int, j: int|
            0 <= i < j < self.keys().len() ==> self.keys()[i] != self.keys()[j]
    }

    pub open spec fn index_of(&self, k: Seq<u8>) -> Option<int> {
        key_index_from(self.keys(), 0, k)
    }

    /// Whether a name with key `k` is present.
    pub open spec fn has(&self, k: Seq<u8>) -> bool {
        self.index_of(k) is Some
    }

    /// The values of the name with key `k`; none where it is absent.
    pub open spec fn values_of(&self, k: Seq<u8>) -> Seq<Seq<u8>> {
        match self.index_of(k) {
            Some(i) => self.entries@[i].1.view(),
            None => Seq::empty(),
        }
    }

    pub fn new() -> (r: HeaderMap)
        ensures
            r.wf(),
            r.entries@.len() == 0,
            forall|k: Seq<u8>| !r.has(k) && r.values_of(k) == Seq::<Seq<u8>>::empty(),
    {
        HeaderMap { entries: Vec::new() }
    }

    pub fn with_capacity(size: usize) -> (r: HeaderMap)
        ensures
            r.wf(),
            r.entries@.len() == 0,
            forall|k: Seq<u8>| !r.has(k) && r.values_of(k) == Seq::<Seq<u8>>::empty(),
    {
        HeaderMap { entries: Vec::with_capacity(size) }
    }

    /// The entry index of `name`, if present.
    pub fn find(&self, name: &HeaderName) -> (r: Option<usize>)
        ensures
            match r {
                Some(i) => i < self.entries@.len() && self.index_of(name_key(*name)) == Some(i as int),
                None => self.index_of(name_key(*name)) is None,
            },
    {
        let ghost k = name_key(*name);
        let mut i: usize = 0;
        while i < self.entries.len()
            invariant
                i <= self.entries@.len(),
                k == name_key(*name),
                forall|j: int| 0 <= j < i ==> self.keys()[j] != k,
            decreases self.entries@.len() - i,
        {
            let e = &self.entries[i];
            let is_same = e.0.same(name);
            proof {
                assert(*e == self.entries@[i as int]);
                assert(self.keys()[i as int] == name_key(self.entries@[i as int].0));
                assert(is_same == (self.keys()[i as int] == k));
            }
            if is_same {
                proof {
                    lemma_key_index_first(self.keys(), 0, k, i as int);
                }
                return Some(i);
            }
            i += 1;
        }
        proof {
            lemma_key_index(self.keys(), 0, k);
        }
        None
    }

    pub fn contains(&self, name: &HeaderName) -> (r: bool)
        ensures
            r == self.has(name_key(*name)),
    {
        self.find(name).is_some()
    }

    /// The values of `name`, if present.
    pub fn get(&self, name: &HeaderName) -> (r: Option<&HeaderValue>)
        ensures
            r is Some == self.has(name_key(*name)),
            r matches Some(v) ==> v.view() == self.values_of(name_key(*name)),
    {
        match self.find(name) {
            Some(i) => Some(&self.entries[i].1),
            None => None,
        }
    }

    /// Appends `value` to the values of `name`, adding the name where it is absent.
    pub fn append(&mut self, name: HeaderName, value: Vec<u8>)
        requires
            old(self).wf(),
        ensures
            final(self).wf(),
            forall|k: Seq<u8>|
                #![trigger final(self).values_of(k)]
                final(self).values_of(k) == if k == name_key(name) {
                    old(self).values_of(k).push(value@)
                } else {
                    old(self).values_of(k)
                },
            forall|k: Seq<u8>|
                #![trigger final(self).has(k)]
                final(self).has(k) == (old(self).has(k) || k == name_key(name)),
            final(self).entries@.len() == old(self).entries@.len() || final(self).entries@.len()
                == old(self).entries@.len() + 1,
            forall|i: int|
                0 <= i < old(self).entries@.len() ==> (#[trigger] final(self).entries@[i]).0 == old(
                    self,
                ).entries@[i].0,
            final(self).entries@.len() == old(self).entries@.len() + 1 ==> final(self).entries@.last().0
                == name,
            final(self).entries@.len() == old(self).entries@.len() + 1 <==> !old(self).has(name_key(name)),
    {
        let ghost k0 = name_key(name);
        let ghost ks = self.keys();
        proof {
            lemma_key_index(ks, 0, k0);
        }
        match self.find(&name) {
            Some(i) => {
                let (n, mut val) = self.entries.remove(i);
                val.push(value);
                self.entries.insert(i, (n, val));
                proof {
                    assert forall|j: int| 0 <= j < old(self).entries@.len() implies (#[trigger] self.entries@[j]).0 == old(self).entries@[j].0 by {
                        if j < i {
                        } else if j > i {
                        }
                    }
                    assert(self.keys() =~= ks);
                    assert forall|k: Seq<u8>| #![trigger self.values_of(k)]
                        self.values_of(k) == if k == k0 {
                            old(self).values_of(k).push(value@)
                        } else {
                            old(self).values_of(k)
                        } by {
                        lemma_key_index(ks, 0, k);
                    }
                    assert forall|k: Seq<u8>| #![trigger self.has(k)]
                        self.has(k) == (old(self).has(k) || k == k0) by {
                        lemma_key_index(ks, 0, k);
                    }
                }
            },
            None => {
                let mut val = HeaderValue::new();
                val.push(value);
                self.entries.push((name, val));
                proof {
                    let nks = self.keys();
                    assert(nks =~= ks.push(k0));
                    assert forall|k: Seq<u8>| #![trigger self.values_of(k)] #![trigger self.has(k)]
                        self.values_of(k) == if k == k0 {
                            old(self).values_of(k).push(value@)
                        } else {
                            old(self).values_of(k)
                        } && self.has(k) == (old(self).has(k) || k == k0) by {
                        lemma_key_index(ks, 0, k);
                        lemma_key_index(nks, 0, k);
                        match key_index_from(ks, 0, k) {
                            Some(j) => {
                                lemma_key_index_first(nks, 0, k, j);
                            },
                            None => {
                                if k == k0 {
                                    lemma_key_index_first(nks, 0, k, ks.len() as int);
                                    assert(old(self).values_of(k) =~= Seq::<Seq<u8>>::empty());
                                    assert(self.values_of(k) =~= seq![value@]);
                                }
                            },
                        }
                    }
                }
            },
        }
    }
}


/// A sequence of at most 17 bytes whose every byte is a token character.
proof fn lemma_short_tchar(s: Seq<u8>)
    requires
        s.len() <= 17,
        s.len() > 0 ==> tchar(s[0]),
        s.len() > 1 ==> tchar(s[1]),
        s.len() > 2 ==> tchar(s[2]),
        s.len() > 3 ==> tchar(s[3]),
        s.len() > 4 ==> tchar(s[4]),
        s.len() > 5 ==> tchar(s[5]),
        s.len() > 6 ==> tchar(s[6]),
        s.len() > 7 ==> tchar(s[7]),
        s.len() > 8 ==> tchar(s[8]),
        s.len() > 9 ==> tchar(s[9]),
        s.len() > 10 ==> tchar(s[10]),
        s.len() > 11 ==> tchar(s[11]),
        s.len() > 12 ==> tchar(s[12]),
        s.len() > 13 ==> tchar(s[13]),
        s.len() > 14 ==> tchar(s[14]),
        s.len() > 15 ==> tchar(s[15]),
        s.len() > 16 ==> tchar(s[16]),
    ensures
        crate::scan::all_tchar(s),
{
    assert forall|j: int| 0 <= j < s.len() implies tchar(#[trigger] s[j]) by {
        if j == 0 {
        } else if j == 1 {
        } else if j == 2 {
        } else if j == 3 {
        } else if j == 4 {
        } else if j == 5 {
        } else if j == 6 {
        } else if j == 7 {
        } else if j == 8 {
        } else if j == 9 {
        } else if j == 10 {
        } else if j == 11 {
        } else if j == 12 {
        } else if j == 13 {
        } else if j == 14 {
        } else if j == 15 {
        } else {
        }
    }
}

/// The canonical spellings of the known names are tokens.
pub proof fn lemma_builtin_name_tchar(b: Builtin)
    ensures
        builtin_name(b).len() > 0,
        crate::scan::all_tchar(builtin_name(b)),
{
    lemma_short_tchar(builtin_name(b));
}

} // verus!
