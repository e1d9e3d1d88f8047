//! Invites to a federation, as far as the federation's ID is concerned.

use crate::notes::{part, read_part};
use crate::varint::{read_error, read_varint, varint, Reader};
use vstd::prelude::*;

verus! {

/// What is said where an invite ends within a body or a URL.
pub open spec fn short_invite() -> Seq<char> {
    "Read: failed to fill whole buffer"@
}

/// What is said where an invite ends within a federation's ID.
pub open spec fn short_id() -> Seq<char> {
    "Read fed_id: failed to fill whole buffer"@
}

/// What is behind `n` peers, each of which is a number and a URL.
pub open spec fn behind_peers(n: nat, s: Seq<u8>) -> Result<Seq<u8>, Seq<char>>
    decreases n,
{
    if n == 0 {
        Ok(s)
    } else {
        match varint(s) {
            None => Err(read_error()),
            Some((_peer, s1)) => match varint(s1) {
                None => Err(read_error()),
                Some((len, s2)) => if len > s2.len() {
                    Err(short_invite())
                } else {
                    behind_peers((n - 1) as nat, s2.skip(len as int))
                },
            },
        }
    }
}

/// The federation's ID in an invite that comes with notes: the thirty-two bytes behind the
/// peers.
pub open spec fn invited_federation(body: Seq<u8>) -> Result<Seq<u8>, Seq<char>> {
    match varint(body) {
        None => Err(read_error()),
        Some((n, s)) => match behind_peers(n as nat, s) {
            Err(e) => Err(e),
            Ok(rest) => if rest.len() < 32 {
                Err(short_id())
            } else {
                Ok(rest.take(32))
            },
        },
    }
}

/// The federation's ID in an invite code: the first thirty-two bytes of the first of the `n`
/// parts that has the tag 1 and that many bytes. What is behind that part is not looked at.
pub open spec fn federation_in_parts(n: nat, s: Seq<u8>) -> Result<Seq<u8>, Seq<char>>
    decreases n,
{
    if n == 0 {
        Err("No FederationId found in invite code"@)
    } else {
        match part(s, u64::MAX, short_invite()) {
            Err(e) => Err(e),
            Ok((tag, body, rest)) => if tag == 1 && body.len() >= 32 {
                Ok(body.take(32))
            } else {
                federation_in_parts((n - 1) as nat, rest)
            },
        }
    }
}

/// The federation's ID in the bytes of an invite code.
pub open spec fn federation_in_invite(bytes: Seq<u8>) -> Result<Seq<u8>, Seq<char>> {
    match varint(bytes) {
        None => Err(read_error()),
        Some((n, s)) => federation_in_parts(n as nat, s),
    }
}

/// The first thirty-two bytes.
pub fn first_32(bytes: &[u8]) -> (id: [u8; 32])
    requires
        bytes@.len() >= 32,
    ensures
        id@ == bytes@.take(32),
{
    let mut id: [u8; 32] = [0u8; 32];
    let mut i: usize = 0;
    while i < 32
        invariant
            i <= 32,
            bytes@.len() >= 32,
            id@.len() == 32,
            forall|k: int| 0 <= k < i ==> id@[k] == bytes@[k],
        decreases 32 - i,
    {
        id[i] = bytes[i];
        i = i + 1;
    }
    assert(id@ =~= bytes@.take(32));
    id
}

/// Reads the federation's ID out of an invite that comes with notes.
pub fn extract_federation_id_from_invite(body: &[u8]) -> (id: Result<[u8; 32], String>)
    ensures
        match id {
            Ok(id) => invited_federation(body@) == Ok::<Seq<u8>, Seq<char>>(id@),
            Err(e) => invited_federation(body@) == Err::<Seq<u8>, Seq<char>>(e@),
        },
{
    let mut r = Reader::new(body);
    let num_peers: u64 = match read_varint(&mut r) {
        Ok(n) => n,
        Err(e) => {
            return Err(e);
        },
    };
    let ghost start = r@;
    let mut i: u64 = 0;
    while i < num_peers
        invariant
            r.wf(),
            i <= num_peers,
            behind_peers(num_peers as nat, start) == behind_peers((num_peers - i) as nat, r@),
            varint(body@) == Some((num_peers, start)),
        decreases num_peers - i,
    {
        let _peer_id: u64 = match read_varint(&mut r) {
            Ok(n) => n,
            Err(e) => {
                return Err(e);
            },
        };
        let url_len: u64 = match read_varint(&mut r) {
            Ok(n) => n,
            Err(e) => {
                return Err(e);
            },
        };
        if r.read_exact(url_len).is_none() {
            return Err("Read: failed to fill whole buffer".to_string());
        }
        i = i + 1;
    }
    match r.read_exact(32) {
        Some(id) => {
            assert(id@.take(32) =~= id@);
            Ok(first_32(&id))
        },
        None => Err("Read fed_id: failed to fill whole buffer".to_string()),
    }
}

/// Reads the federation's ID out of the bytes of an invite code.
pub fn parse_invite_bytes(bytes: &[u8]) -> (id: Result<[u8; 32], String>)
    ensures
        match id {
            Ok(id) => federation_in_invite(bytes@) == Ok::<Seq<u8>, Seq<char>>(id@),
            Err(e) => federation_in_invite(bytes@) == Err::<Seq<u8>, Seq<char>>(e@),
        },
{
    let mut r = Reader::new(bytes);
    let num_parts: u64 = match read_varint(&mut r) {
        Ok(n) => n,
        Err(e) => {
            return Err(e);
        },
    };
    let ghost start = r@;
    let mut i: u64 = 0;
    while i < num_parts
        invariant
            r.wf(),
            i <= num_parts,
            federation_in_parts(num_parts as nat, start) == federation_in_parts(
                (num_parts - i) as nat,
                r@,
            ),
            varint(bytes@) == Some((num_parts, start)),
        decreases num_parts - i,
    {
        match read_part(&mut r, u64::MAX, "Read: failed to fill whole buffer") {
            Ok((tag, body)) => {
                if tag == 1 && body.len() >= 32 {
                    return Ok(first_32(&body));
                }
            },
            Err(e) => {
                return Err(e);
            },
        }
        i = i + 1;
    }
    Err("No FederationId found in invite code".to_string())
}

} // verus!
