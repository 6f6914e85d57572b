//! Typed readings of known header fields: `Connection` and `Transfer-Encoding`.

use crate::header::{eq_ignore_case, joined, lower_seq, Builtin, HeaderMap, HeaderName, HeaderValue};
use vstd::slice::slice_to_vec;
use crate::parser::{item_end, items_from, key_of, lemma_items_from, lemma_trim_bounds, list_items, trimmed, COMMA};
use crate::scan::{first_of, ReaderLine};
use vstd::prelude::*;

verus! {

/// The list `s` holds an item equal to `token`, ignoring case.
pub open spec fn list_has(s: Seq<u8>, token: Seq<u8>) -> bool {
    exists|i: int| 0 <= i < list_items(s).len() && lower_seq(#[trigger] list_items(s)[i]) == lower_seq(token)
}

/// Whether the comma-separated list `s` holds `token`, ignoring case.
pub fn list_contains(s: &[u8], token: &[u8]) -> (r: bool)
    ensures
        r == list_has(s@, token@),
{
    let mut p: usize = 0;
    let ghost mut done: Seq<Seq<u8>> = Seq::empty();
    proof {
        lemma_items_from(s@, 0);
    }
    loop
        invariant
            p <= s@.len(),
            list_items(s@) == done + items_from(s@, p as int),
            items_from(s@, p as int).len() >= 1,
            forall|j: int| 0 <= j < done.len() ==> lower_seq(#[trigger] done[j]) != lower_seq(token@),
        decreases s@.len() - p,
    {
        let (end, next, last) = item_end(s, p);
        let ghost cur = trimmed(s@, p as int, end as int);
        proof {
            match first_of(s@.subrange(p as int, s@.len() as int), COMMA) {
                None => {
                    assert(items_from(s@, p as int) == seq![cur]);
                },
                Some(i) => {
                    assert(items_from(s@, p as int) == seq![cur] + items_from(s@, p + i + 1));
                },
            }
            lemma_trim_bounds(s@, p as int, end as int);
        }
        let t = ReaderLine::new(s, p, end).trim();
        if eq_ignore_case(&s[t.start..t.end], token) {
            proof {
                assert(list_items(s@)[done.len() as int] == cur);
            }
            return true;
        }
        if last {
            proof {
                assert(list_items(s@) =~= done.push(cur));
                assert forall|i: int| 0 <= i < list_items(s@).len() implies lower_seq(#[trigger] list_items(s@)[i]) != lower_seq(token@) by {
                    if i < done.len() {
                        assert(list_items(s@)[i] == done[i]);
                    }
                }
            }
            return false;
        }
        proof {
            let rest = items_from(s@, next as int);
            assert(done.push(cur) + rest =~= done + (seq![cur] + rest));
            done = done.push(cur);
            lemma_items_from(s@, next as int);
        }
        p = next;
    }
}

/// The bytes `close`.
pub open spec fn close_token() -> Seq<u8> {
    seq![99u8, 108u8, 111u8, 115u8, 101u8]
}

/// The bytes `keep-alive`.
pub open spec fn keep_alive_token() -> Seq<u8> {
    seq![107u8, 101u8, 101u8, 112u8, 45u8, 97u8, 108u8, 105u8, 118u8, 101u8]
}

/// The `Connection` field of `m` names `token`.
pub open spec fn connection_has(m: HeaderMap, token: Seq<u8>) -> bool {
    list_has(joined(m.values_of(key_of(Builtin::Connection))), token)
}

/// Whether the `Connection` field of `map` names `token`, ignoring case.
pub fn has_connection_option(map: &HeaderMap, token: &[u8]) -> (r: bool)
    ensures
        r == connection_has(*map, token@),
{
    let name = HeaderName::Builtin(Builtin::Connection);
    match map.get(&name) {
        Some(v) => {
            let j = v.collect();
            list_contains(j.as_slice(), token)
        },
        None => {
            proof {
                assert(map.values_of(key_of(Builtin::Connection)) =~= Seq::<Seq<u8>>::empty());
            }
            let empty: Vec<u8> = Vec::new();
            proof {
                assert(empty@ =~= joined(map.values_of(key_of(Builtin::Connection))));
            }
            list_contains(empty.as_slice(), token)
        },
    }
}

/// The options of a `Connection` field.
#[derive(Debug, Clone, PartialEq, Eq)]
pub enum ConnectionType {
    ProxyConnection,
    KeepAlive,
    TE,
    TransferEncoding,
    Upgrade,
    Close,
    Unknown(Vec<u8>),
}

impl ConnectionType {
    /// The spelling of the option.
    pub open spec fn to_header_value_spec(&self) -> Seq<u8> {
        match self {
            ConnectionType::ProxyConnection => seq![80u8, 114u8, 111u8, 120u8, 121u8, 45u8, 67u8, 111u8, 110u8, 110u8, 101u8, 99u8, 116u8, 105u8, 111u8, 110u8],
            ConnectionType::KeepAlive => seq![75u8, 101u8, 101u8, 112u8, 45u8, 65u8, 108u8, 105u8, 118u8, 101u8],
            ConnectionType::TE => seq![84u8, 69u8],
            ConnectionType::TransferEncoding => seq![84u8, 114u8, 97u8, 110u8, 115u8, 102u8, 101u8, 114u8, 45u8, 69u8, 110u8, 99u8, 111u8, 100u8, 105u8, 110u8, 103u8],
            ConnectionType::Upgrade => seq![85u8, 112u8, 103u8, 114u8, 97u8, 100u8, 101u8],
            ConnectionType::Close => seq![67u8, 108u8, 111u8, 115u8, 101u8],
            ConnectionType::Unknown(v) => v@,
        }
    }

    /// The spelling of the option.
    pub fn to_header_value(&self) -> (r: Vec<u8>)
        ensures
            r@ == self.to_header_value_spec(),
    {
        let r = match self {
            ConnectionType::ProxyConnection => vec![80, 114, 111, 120, 121, 45, 67, 111, 110, 110, 101, 99, 116, 105, 111, 110],
            ConnectionType::KeepAlive => vec![75, 101, 101, 112, 45, 65, 108, 105, 118, 101],
            ConnectionType::TE => vec![84, 69],
            ConnectionType::TransferEncoding => vec![84, 114, 97, 110, 115, 102, 101, 114, 45, 69, 110, 99, 111, 100, 105, 110, 103],
            ConnectionType::Upgrade => vec![85, 112, 103, 114, 97, 100, 101],
            ConnectionType::Close => vec![67, 108, 111, 115, 101],
            ConnectionType::Unknown(v) => v.clone(),
        };
        proof {
            assert(r@ =~= self.to_header_value_spec());
        }
        r
    }
}

/// The option a single `Connection` value names, ignoring case.
pub open spec fn connection_type_of(v: Seq<u8>) -> Option<ConnectionType> {
    if lower_seq(v) == lower_seq(ConnectionType::ProxyConnection.to_header_value_spec()) {
        Some(ConnectionType::ProxyConnection)
    } else if lower_seq(v) == lower_seq(ConnectionType::KeepAlive.to_header_value_spec()) {
        Some(ConnectionType::KeepAlive)
    } else if lower_seq(v) == lower_seq(ConnectionType::TE.to_header_value_spec()) {
        Some(ConnectionType::TE)
    } else if lower_seq(v) == lower_seq(ConnectionType::TransferEncoding.to_header_value_spec()) {
        Some(ConnectionType::TransferEncoding)
    } else if lower_seq(v) == lower_seq(ConnectionType::Upgrade.to_header_value_spec()) {
        Some(ConnectionType::Upgrade)
    } else if lower_seq(v) == lower_seq(ConnectionType::Close.to_header_value_spec()) {
        Some(ConnectionType::Close)
    } else {
        None
    }
}

/// `t` is the option that the list item `v` names.
pub open spec fn names_option(v: Seq<u8>, t: ConnectionType) -> bool {
    match t {
        ConnectionType::Unknown(u) => connection_type_of(v) is None && u@ == v,
        _ => connection_type_of(v) == Some(t),
    }
}

/// The items of a field's values read as one comma-separated list; none without values.
pub open spec fn field_items(vals: Seq<Seq<u8>>) -> Seq<Seq<u8>> {
    if vals.len() == 0 {
        Seq::empty()
    } else {
        list_items(joined(vals))
    }
}

impl ConnectionType {
    /// The option one list item names, ignoring case.
    pub fn from_item(v: &[u8]) -> (r: ConnectionType)
        ensures
            names_option(v@, r),
    {
        let t = ConnectionType::ProxyConnection.to_header_value();
        if eq_ignore_case(v, t.as_slice()) {
            return ConnectionType::ProxyConnection;
        }
        let t = ConnectionType::KeepAlive.to_header_value();
        if eq_ignore_case(v, t.as_slice()) {
            return ConnectionType::KeepAlive;
        }
        let t = ConnectionType::TE.to_header_value();
        if eq_ignore_case(v, t.as_slice()) {
            return ConnectionType::TE;
        }
        let t = ConnectionType::TransferEncoding.to_header_value();
        if eq_ignore_case(v, t.as_slice()) {
            return ConnectionType::TransferEncoding;
        }
        let t = ConnectionType::Upgrade.to_header_value();
        if eq_ignore_case(v, t.as_slice()) {
            return ConnectionType::Upgrade;
        }
        let t = ConnectionType::Close.to_header_value();
        if eq_ignore_case(v, t.as_slice()) {
            return ConnectionType::Close;
        }
        ConnectionType::Unknown(slice_to_vec(v))
    }

    /// The options a `Connection` field names: one per item of its comma-separated list, in
    /// order, its values read as one list.
    pub fn from_header_value(value: &HeaderValue) -> (r: Vec<ConnectionType>)
        ensures
            r@.len() == field_items(value.view()).len(),
            forall|i: int| 0 <= i < r@.len() ==> names_option(field_items(value.view())[i], #[trigger] r@[i]),
    {
        let mut out: Vec<ConnectionType> = Vec::new();
        if value.is_empty() {
            return out;
        }
        let j = value.collect();
        let s = j.as_slice();
        let mut p: usize = 0;
        let ghost mut done: Seq<Seq<u8>> = Seq::empty();
        proof {
            lemma_items_from(s@, 0);
        }
        loop
            invariant
                p <= s@.len(),
                s@ == joined(value.view()),
                value.view().len() > 0,
                list_items(s@) == done + items_from(s@, p as int),
                items_from(s@, p as int).len() >= 1,
                out@.len() == done.len(),
                forall|i: int| 0 <= i < done.len() ==> names_option(done[i], #[trigger] out@[i]),
            decreases s@.len() - p,
        {
            let (end, next, last) = item_end(s, p);
            let ghost cur = trimmed(s@, p as int, end as int);
            proof {
                match first_of(s@.subrange(p as int, s@.len() as int), COMMA) {
                    None => {
                        assert(items_from(s@, p as int) == seq![cur]);
                    },
                    Some(i) => {
                        assert(items_from(s@, p as int) == seq![cur] + items_from(s@, p + i + 1));
                    },
                }
                lemma_trim_bounds(s@, p as int, end as int);
            }
            let t = ReaderLine::new(s, p, end).trim();
            let opt = ConnectionType::from_item(&s[t.start..t.end]);
            let ghost prev = out@;
            out.push(opt);
            proof {
                let rest = items_from(s@, next as int);
                assert(done.push(cur) + rest =~= done + (seq![cur] + rest));
                done = done.push(cur);
                assert forall|i: int| 0 <= i < done.len() implies names_option(done[i], #[trigger] out@[i]) by {
                    if i < done.len() - 1 {
                        assert(out@[i] == prev[i]);
                    }
                }
            }
            if last {
                proof {
                    assert(list_items(s@) =~= done);
                }
                return out;
            }
            proof {
                lemma_items_from(s@, next as int);
            }
            p = next;
        }
    }
}

/// A transfer coding (RFC 9112, section 7).
#[derive(Debug, Clone, Copy, PartialEq, Eq, Structural)]
pub enum TransferEncodingKind {
    /// The chunked transfer coding.
    Chunked,
    Compression(CompressionMethod),
}

#[derive(Debug, Clone, Copy, PartialEq, Eq, Structural)]
pub enum CompressionMethod {
    Compress,
    Deflate,
    Gzip,
}

} // verus!
