//! JSON objects: members kept once each, in increasing order of their keys'
//! bytes.
use vstd::prelude::*;
use std::cmp::Ordering;
use vstd::utf8::encode_utf8;

use crate::cbor::model::lex_cmp;
use crate::cbor::order::{ordering_sign, lex_compare};
use crate::error::{Error, ErrorKind};
use super::value::{Value, Object, JsonModel, member_models};

verus! {

/// Keys compare by their UTF-8 bytes, as strings do.
pub open spec fn key_cmp(a: Seq<char>, b: Seq<char>) -> int {
    lex_cmp(encode_utf8(a), encode_utf8(b))
}

/// The index of the first member of `members`, from `i` on, whose key is not
/// below `key` (the length when there is none).
pub open spec fn first_key_not_below(members: Seq<(Seq<char>, JsonModel)>, key: Seq<char>, i: int) -> int
    decreases members.len() - i,
{
    if i < 0 || i >= members.len() || key_cmp(members[i].0, key) >= 0 {
        i
    } else {
        first_key_not_below(members, key, i + 1)
    }
}

/// `members` after setting `key` to `value`: the member with an equal key at
/// the insertion point gets the new value; otherwise a member is inserted
/// there.
pub open spec fn insert_member(
    members: Seq<(Seq<char>, JsonModel)>,
    key: Seq<char>,
    value: JsonModel,
) -> Seq<(Seq<char>, JsonModel)> {
    let p = first_key_not_below(members, key, 0);
    if p < members.len() && key_cmp(members[p].0, key) == 0 {
        members.update(p, (members[p].0, value))
    } else {
        members.insert(p, (key, value))
    }
}

impl Object {
    /// Sets `key` to `value`, returning the value it replaces.
    pub fn insert(&mut self, key: String, value: Value) -> (r: Option<Value>)
        ensures
            member_models(final(self).entries@) == insert_member(
                member_models(old(self).entries@),
                key@,
                value.model(),
            ),
            r is Some <==> ({
                let p = first_key_not_below(member_models(old(self).entries@), key@, 0);
                p < old(self).entries@.len() && key_cmp(old(self).entries@[p].0@, key@) == 0
            }),
    {
        let ghost es = self.entries@;
        let ghost em = member_models(es);
        let mut p: usize = 0;
        let kb = key.as_str().as_bytes();
        let mut found = false;
        loop
            invariant
                self.entries@ == es,
                em == member_models(es),
                kb@ == encode_utf8(key@),
                p <= es.len(),
                first_key_not_below(em, key@, 0) == first_key_not_below(em, key@, p as int),
                found ==> p < es.len() && key_cmp(es[p as int].0@, key@) == 0,
            ensures
                self.entries@ == es,
                p <= es.len(),
                first_key_not_below(em, key@, 0) == p,
                found <==> (p < es.len() && key_cmp(es[p as int].0@, key@) == 0),
            decreases es.len() - p,
        {
            if p >= self.entries.len() {
                break;
            }
            let c = lex_compare(self.entries[p].0.as_str().as_bytes(), kb);
            assert(em[p as int].0 == es[p as int].0@);
            if !matches!(c, Ordering::Less) {
                found = matches!(c, Ordering::Equal);
                break;
            }
            p = p + 1;
        }
        if found {
            let (k0, v0) = self.entries.remove(p);
            self.entries.insert(p, (k0, value));
            proof {
                assert(member_models(self.entries@) =~= insert_member(em, key@, value.model()));
            }
            Some(v0)
        } else {
            self.entries.insert(p, (key, value));
            proof {
                assert(member_models(self.entries@) =~= insert_member(em, key@, value.model()));
            }
            None
        }
    }

    pub fn len(&self) -> (r: usize)
        ensures
            r == self.entries@.len(),
    {
        self.entries.len()
    }

    /// The value of the member whose key is `key`.
    pub fn get(&self, key: &str) -> (r: Option<&Value>)
        ensures
            r matches Some(v) ==> exists|i: int|
                0 <= i < self.entries@.len() && #[trigger] self.entries@[i].0@ == key@ && *v
                    == self.entries@[i].1,
            r is None ==> forall|i: int|
                0 <= i < self.entries@.len() ==> #[trigger] self.entries@[i].0@ != key@,
    {
        let kb = key.as_bytes();
        let mut i: usize = 0;
        while i < self.entries.len()
            invariant
                i <= self.entries@.len(),
                kb@ == encode_utf8(key@),
                forall|j: int| 0 <= j < i ==> #[trigger] self.entries@[j].0@ != key@,
            decreases self.entries@.len() - i,
        {
            let c = lex_compare(self.entries[i].0.as_str().as_bytes(), kb);
            if matches!(c, Ordering::Equal) {
                proof {
                    crate::cbor::order::lemma_lex_antisymmetric(
                        encode_utf8(self.entries@[i as int].0@),
                        encode_utf8(key@),
                    );
                    vstd::utf8::encode_utf8_decode_utf8(self.entries@[i as int].0@);
                    vstd::utf8::encode_utf8_decode_utf8(key@);
                }
                return Some(&self.entries[i].1);
            }
            proof {
                if self.entries@[i as int].0@ == key@ {
                    crate::cbor::order::lemma_lex_antisymmetric(encode_utf8(key@), encode_utf8(key@));
                }
            }
            i = i + 1;
        }
        None
    }

    /// The value of the member `key`, which a record needs: a missing member
    /// is an error. Members the record does not ask for are never looked at.
    pub fn required(&self, key: &str) -> (r: Result<&Value, Error>)
        ensures
            r matches Ok(v) ==> exists|i: int|
                0 <= i < self.entries@.len() && #[trigger] self.entries@[i].0@ == key@ && *v
                    == self.entries@[i].1,
            r matches Err(e) ==> e.kind == ErrorKind::MissingField && forall|i: int|
                0 <= i < self.entries@.len() ==> #[trigger] self.entries@[i].0@ != key@,
    {
        match self.get(key) {
            Some(v) => Ok(v),
            None => Err(Error::new(ErrorKind::MissingField)),
        }
    }
}

} // verus!
