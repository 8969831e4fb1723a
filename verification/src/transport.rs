//! How a message is framed on the wire: its length in four bytes, most significant first, and then
//! its bytes.
use vstd::prelude::*;

verus! {

/// A length as four bytes, most significant first.
pub open spec fn length_bytes(len: nat) -> Seq<u8> {
    seq![
        (len / 16777216 % 256) as u8,
        (len / 65536 % 256) as u8,
        (len / 256 % 256) as u8,
        (len % 256) as u8,
    ]
}

/// The length that four bytes stand for, most significant first.
pub open spec fn length_of(header: Seq<u8>) -> nat {
    (header[0] * 16777216 + header[1] * 65536 + header[2] * 256 + header[3]) as nat
}

/// Why a message could not be framed: its length does not fit in four bytes.
#[derive(Clone, Copy, Debug, PartialEq, Eq, Structural)]
pub struct MessageTooLarge;

impl MessageTooLarge {
    /// The message shown to a person.
    pub fn display(self) -> (s: &'static str)
        ensures
            s@ == "message exceeds 4 GiB"@,
    {
        "message exceeds 4 GiB"
    }
}

/// Frames a message.
///
/// # Errors
/// `MessageTooLarge` if the length of the message does not fit in four bytes.
pub fn frame(message: &Vec<u8>) -> (result: Result<Vec<u8>, MessageTooLarge>)
    ensures
        result is Ok <==> message@.len() <= u32::MAX,
        result matches Ok(bytes) ==> bytes@ == length_bytes(message@.len()) + message@,
        result matches Ok(bytes) ==> {
            &&& bytes@.len() == message@.len() + 4
            &&& bytes@[0] * 16777216 + bytes@[1] * 65536 + bytes@[2] * 256 + bytes@[3]
                == message@.len()
            &&& bytes@.skip(4) == message@
        },
{
    let len: u64 = message.len() as u64;
    if len > u32::MAX as u64 {
        return Err(MessageTooLarge);
    }
    let mut bytes: Vec<u8> = Vec::new();
    bytes.push((len / 16777216 % 256) as u8);
    bytes.push((len / 65536 % 256) as u8);
    bytes.push((len / 256 % 256) as u8);
    bytes.push((len % 256) as u8);
    let ghost header = bytes@;
    let mut i: usize = 0;
    while i < message.len()
        invariant
            i <= message.len(),
            header.len() == 4,
            bytes@ == header + message@.take(i as int),
        decreases message.len() - i,
    {
        bytes.push(message[i]);
        i = i + 1;
        proof {
            assert(header + message@.take(i as int) =~= (header + message@.take(i - 1)).push(
                message@[i - 1],
            ));
        }
    }
    proof {
        assert(message@.take(i as int) =~= message@);
        assert(header =~= length_bytes(message@.len()));
        assert(bytes@.skip(4) =~= message@);
    }
    Ok(bytes)
}

/// How many bytes follow the four bytes of `header`.
pub fn frame_length(header: &[u8; 4]) -> (len: u32)
    ensures
        len == length_of(header@),
        len == header@[0] * 16777216 + header@[1] * 65536 + header@[2] * 256 + header@[3],
{
    let high: u32 = header[0] as u32 * 16777216;
    let upper: u32 = header[1] as u32 * 65536;
    let lower: u32 = header[2] as u32 * 256;
    high + upper + lower + header[3] as u32
}

/// The header of a frame gives back the length of the message in it.
pub proof fn law_header_gives_the_length(message: Seq<u8>)
    requires
        message.len() <= u32::MAX,
    ensures
        length_of((length_bytes(message.len()) + message).take(4)) == message.len(),
        (length_bytes(message.len()) + message).skip(4) == message,
{
    let header = length_bytes(message.len());
    assert((header + message).take(4) =~= header);
    assert((header + message).skip(4) =~= message);
}

} // verus!
