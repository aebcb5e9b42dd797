//! Internal key as a pair of user key and tag.

use vstd::prelude::*;

use crate::coding;
use crate::status;
use crate::status::Status;

verus! {

/// A user key and its tag, apart.
#[derive(Debug)]
pub struct InternalKey {
    pub user_key: Vec<u8>,
    pub tag: u64,
}

impl Default for InternalKey {
    fn default() -> (key: Self)
        ensures
            key.user_key@ == Seq::<u8>::empty(),
            key.tag == 0,
    {
        InternalKey { user_key: Vec::new(), tag: 0 }
    }
}

impl InternalKey {
    /// The user key followed by the tag.
    pub open spec fn encoded(&self) -> Seq<u8> {
        self.user_key@ + coding::le_bytes(self.tag as nat, 8)
    }

    pub fn encode(&self, dst: &mut Vec<u8>)
        ensures
            final(dst)@ == old(dst)@ + self.encoded(),
    {
        dst.extend_from_slice(self.user_key.as_slice());
        coding::put_fixed64(dst, self.tag);
        assert(dst@ =~= old(dst)@ + self.encoded());
    }

    /// Takes all of `input`: its last eight bytes are the tag.
    pub fn decode_from(input: &mut &[u8]) -> (key: status::Result<Self>)
        ensures
            match key {
                Ok(k) => old(input)@.len() >= 8 && k.encoded() == old(input)@ && final(input)@
                    == Seq::<u8>::empty(),
                Err(e) => old(input)@.len() < 8 && final(input)@ == old(input)@ && e.says(
                    status::Code::Corruption,
                    "InternalKey: too short"@,
                ),
            },
    {
        let bytes: &[u8] = *input;
        if bytes.len() < 8 {
            return Err(Status::corruption("InternalKey: too short"));
        }
        let split: usize = bytes.len() - 8;
        let user_key = vstd::slice::slice_to_vec(&bytes[0..split]);
        let tag = coding::decode_fixed64(&bytes[split..bytes.len()]);
        proof {
            let tail = bytes@.skip(split as int);
            assert(bytes@.subrange(split as int, bytes@.len() as int).take(8) =~= tail);
            coding::law_fixed_read_write(tail);
            assert(user_key@ + tail =~= bytes@);
        }
        *input = &bytes[bytes.len()..bytes.len()];
        assert(input@ =~= Seq::<u8>::empty());
        Ok(InternalKey { user_key, tag })
    }
}

/// What is read from an encoded key is that key.
pub proof fn law_round_trip(key: InternalKey, read: InternalKey)
    requires
        read.encoded() == key.encoded(),
    ensures
        read.user_key@ == key.user_key@,
        read.tag == key.tag,
{
    let a = coding::le_bytes(key.tag as nat, 8);
    let b = coding::le_bytes(read.tag as nat, 8);
    coding::lemma_le_bytes_len(key.tag as nat, 8);
    coding::lemma_le_bytes_len(read.tag as nat, 8);
    coding::lemma_pow256_values();
    coding::law_fixed_round_trip(key.tag as nat, 8);
    coding::law_fixed_round_trip(read.tag as nat, 8);
    let n = (key.encoded().len() - 8) as int;
    assert(a =~= key.encoded().skip(n));
    assert(b =~= read.encoded().skip(n));
    assert(key.user_key@ =~= key.encoded().take(n));
    assert(read.user_key@ =~= read.encoded().take(n));
}

} // verus!
