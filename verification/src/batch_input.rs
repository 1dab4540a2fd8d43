//! Batches of signatures as text.
use crate::base64;
use crate::base64::Base64Error;
use crate::statement_chain::Entry;
use vstd::prelude::*;
use vstd::string::*;
use vstd::utf8::*;

verus! {

/// A key, a message and a signature in base64.
pub struct EntryText {
    pub pk: String,
    pub msg: String,
    pub sig: String,
}

/// A field of an entry.
#[derive(Clone, Copy, Debug, PartialEq, Eq, Structural)]
pub enum Field {
    Pk,
    Msg,
    Sig,
}

/// The first field that is not base64: that of entry `index`.
#[derive(Clone, Copy, Debug, PartialEq, Eq)]
pub struct EntryError {
    pub index: usize,
    pub field: Field,
}

/// What a text in base64 stands for.
pub open spec fn value_of(text: Seq<char>) -> Result<Seq<u8>, Base64Error> {
    base64::decoded(encode_utf8(base64::trim_end(base64::trim_start(text))))
}

/// The first field of an entry that is not base64.
pub open spec fn entry_fault(e: EntryText) -> Option<Field> {
    if value_of(e.pk@) is Err {
        Some(Field::Pk)
    } else if value_of(e.msg@) is Err {
        Some(Field::Msg)
    } else if value_of(e.sig@) is Err {
        Some(Field::Sig)
    } else {
        None
    }
}

/// The first fault, from entry `i` on.
pub open spec fn batch_fault(entries: Seq<EntryText>, i: nat) -> Option<EntryError>
    decreases entries.len() - i,
{
    if i >= entries.len() {
        None
    } else {
        match entry_fault(entries[i as int]) {
            Some(field) => Some(EntryError { index: i as usize, field }),
            None => batch_fault(entries, i + 1),
        }
    }
}

/// Whether an entry is what its texts stand for.
pub open spec fn is_entry_of(e: Entry, t: EntryText) -> bool {
    &&& value_of(t.pk@) == Ok::<Seq<u8>, Base64Error>(e.0@)
    &&& value_of(t.msg@) == Ok::<Seq<u8>, Base64Error>(e.1@)
    &&& value_of(t.sig@) == Ok::<Seq<u8>, Base64Error>(e.2@)
}

fn decode_entry(e: &EntryText) -> (res: Result<Entry, Field>)
    ensures
        match entry_fault(*e) {
            Some(field) => res == Err::<Entry, Field>(field),
            None => res is Ok && is_entry_of(res->Ok_0, *e),
        },
{
    let pk: Vec<u8> = match base64::base64_decode(e.pk.as_str()) {
        Ok(b) => b,
        Err(_) => {
            return Err(Field::Pk);
        },
    };
    let msg: Vec<u8> = match base64::base64_decode(e.msg.as_str()) {
        Ok(b) => b,
        Err(_) => {
            return Err(Field::Msg);
        },
    };
    let sig: Vec<u8> = match base64::base64_decode(e.sig.as_str()) {
        Ok(b) => b,
        Err(_) => {
            return Err(Field::Sig);
        },
    };
    Ok((pk, msg, sig))
}

/// Decodes a batch.
pub fn decode_entries(entries: &[EntryText]) -> (res: Result<Vec<Entry>, EntryError>)
    ensures
        match batch_fault(entries@, 0) {
            Some(e) => res == Err::<Vec<Entry>, EntryError>(e),
            None => {
                &&& res is Ok
                &&& res->Ok_0@.len() == entries@.len()
                &&& forall|i: int|
                    0 <= i < entries@.len() ==> is_entry_of(#[trigger] res->Ok_0@[i], entries@[i])
            },
        },
{
    let mut out: Vec<Entry> = Vec::new();
    let mut i: usize = 0;
    while i < entries.len()
        invariant
            i <= entries.len(),
            batch_fault(entries@, 0) == batch_fault(entries@, i as nat),
            out@.len() == i,
            forall|k: int| 0 <= k < i ==> is_entry_of(#[trigger] out@[k], entries@[k]),
        decreases entries.len() - i,
    {
        match decode_entry(&entries[i]) {
            Ok(e) => {
                out.push(e);
            },
            Err(field) => {
                return Err(EntryError { index: i, field });
            },
        }
        i = i + 1;
    }
    Ok(out)
}

} // verus!
