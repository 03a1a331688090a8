use vstd::prelude::*;
use crate::utf8::string_from_utf8;

verus! {

/// An ASCII letter or digit.
pub open spec fn is_alphanumeric(c: u8) -> bool {
    (48 <= c <= 57) || (65 <= c <= 90) || (97 <= c <= 122)
}

/// `-BO1000-`, the client's prefix of its peer ids.
pub open spec fn peer_id_prefix() -> Seq<u8> {
    seq![45u8, 66, 79, 49, 48, 48, 48, 45]
}

/// Relies on rand's `Alphanumeric` distribution sampled with `thread_rng`:
/// it yields one of the ASCII letters and digits.
#[verifier::external_body]
fn random_alphanumeric() -> (c: u8)
    ensures
        is_alphanumeric(c),
{
    rand::Rng::sample(&mut rand::thread_rng(), rand::distributions::Alphanumeric)
}

/// A 20-byte peer id: the prefix `-BO1000-`, then 12 random ASCII letters
/// and digits.
pub fn gen_peer_id() -> (r: String)
    ensures
        r@.len() == 20,
        forall|i: int| 0 <= i < 8 ==> r@[i] == peer_id_prefix()[i] as char,
        forall|i: int| 8 <= i < 20 ==> #[trigger] is_alphanumeric(r@[i] as u8) && (r@[i] as u8) as char == r@[i],
{
    let prefix: [u8; 8] = [45u8, 66, 79, 49, 48, 48, 48, 45];
    let mut bytes: Vec<u8> = Vec::new();
    let mut k: usize = 0;
    while k < 8
        invariant
            k <= 8,
            bytes@.len() == k,
            prefix@ == peer_id_prefix(),
            forall|i: int| 0 <= i < k ==> bytes@[i] == peer_id_prefix()[i],
        decreases 8 - k,
    {
        bytes.push(prefix[k]);
        k = k + 1;
    }
    proof {
        assert(prefix@ =~= peer_id_prefix());
    }
    while k < 20
        invariant
            8 <= k <= 20,
            bytes@.len() == k,
            forall|i: int| 0 <= i < 8 ==> bytes@[i] == peer_id_prefix()[i],
            forall|i: int| 8 <= i < k ==> is_alphanumeric(#[trigger] bytes@[i]),
        decreases 20 - k,
    {
        bytes.push(random_alphanumeric());
        k = k + 1;
    }
    proof {
        assert(crate::utf8::is_ascii_bytes(bytes@));
    }
    match string_from_utf8(bytes.as_slice()) {
        Some(s) => {
            proof {
                assert forall|i: int| 8 <= i < 20 implies #[trigger] is_alphanumeric(s@[i] as u8) && (
                s@[i] as u8) as char == s@[i] by {
                    assert(s@[i] == bytes@[i] as char);
                    assert(is_alphanumeric(bytes@[i]));
                }
            }
            s
        },
        None => {
            assert(false);
            String::new()
        },
    }
}

} // verus!
