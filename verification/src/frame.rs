use vstd::prelude::*;

use crate::error::Error;

verus! {

/// Every request and every response is exactly this many bytes; no
/// variable-length frames exist at the wire level.
pub const FRAME_LEN: usize = 32;

/// Opcode of a simple attribute read.
pub const OP_SIMPLE_GET: u8 = 0x02;
/// Opcode of a simple attribute write.
pub const OP_SIMPLE_SET: u8 = 0x03;
/// Opcode of a bounded-size data read at a 16-bit address.
pub const OP_CHUNK_READ: u8 = 0x12;
/// Opcode of a bounded-size data write at a 16-bit address.
pub const OP_CHUNK_WRITE: u8 = 0x13;

/// A chunk-write frame holds its payload in bytes 4..32, so no chunk may
/// carry more than this many bytes.
pub const CHUNK_CAPACITY: u8 = 28;

pub const GET_PRODUCT_NAME: u16 = 0x1001;
pub const GET_KEYBOARD_LAYOUT: u16 = 0x1002;
pub const GET_BOOT_LOADER_VERSION: u16 = 0x1003;
pub const GET_MODEL_NAME: u16 = 0x1005;
pub const GET_SERIAL_NUMBER: u16 = 0x1007;
pub const GET_FIRMWARE_VERSION: u16 = 0x100b;
pub const GET_DIPSW: u16 = 0x1103;

/// The get and set command codes for the current profile are numerically
/// identical; direction is disambiguated solely by the opcode. This is a
/// quirk of the device's dialect, not a mistake.
pub const GET_CURRENT_PROFILE: u16 = 0x1101;
pub const SET_CURRENT_PROFILE: u16 = 0x1101;

/// High byte of a big-endian 16-bit field.
pub open spec fn spec_hi(v: u16) -> u8 {
    (v / 256) as u8
}

/// Low byte of a big-endian 16-bit field.
pub open spec fn spec_lo(v: u16) -> u8 {
    (v % 256) as u8
}

/// The 16-bit value held big-endian at bytes `i`, `i + 1` of a frame.
pub open spec fn spec_be16(frame: Seq<u8>, i: int) -> u16
    recommends
        0 <= i,
        i + 1 < frame.len(),
{
    (frame[i] as u16 * 256 + frame[i + 1] as u16) as u16
}

/// The simple-get request frame: opcode, big-endian command code, zero padding.
pub open spec fn spec_simple_get(command: u16) -> Seq<u8> {
    Seq::new(32, |i: int|
        if i == 0 { OP_SIMPLE_GET }
        else if i == 1 { spec_hi(command) }
        else if i == 2 { spec_lo(command) }
        else { 0u8 })
}

/// The simple-set request frame: opcode, big-endian command code, big-endian
/// value, zero padding.
pub open spec fn spec_simple_set(command: u16, value: u16) -> Seq<u8> {
    Seq::new(32, |i: int|
        if i == 0 { OP_SIMPLE_SET }
        else if i == 1 { spec_hi(command) }
        else if i == 2 { spec_lo(command) }
        else if i == 3 { spec_hi(value) }
        else if i == 4 { spec_lo(value) }
        else { 0u8 })
}

/// The chunk-read request frame: opcode, big-endian address, length, zero
/// padding.
pub open spec fn spec_chunk_read(address: u16, length: u8) -> Seq<u8> {
    Seq::new(32, |i: int|
        if i == 0 { OP_CHUNK_READ }
        else if i == 1 { spec_hi(address) }
        else if i == 2 { spec_lo(address) }
        else if i == 3 { length }
        else { 0u8 })
}

/// The chunk-write request frame: opcode, big-endian address, payload length,
/// payload, zero padding.
pub open spec fn spec_chunk_write(address: u16, data: Seq<u8>) -> Seq<u8>
    recommends
        data.len() <= CHUNK_CAPACITY,
{
    Seq::new(32, |i: int|
        if i == 0 { OP_CHUNK_WRITE }
        else if i == 1 { spec_hi(address) }
        else if i == 2 { spec_lo(address) }
        else if i == 3 { data.len() as u8 }
        else if 4 <= i < 4 + data.len() { data[i - 4] }
        else { 0u8 })
}

/// One fixed-size unit of wire exchange, request or response.
pub struct Frame {
    bytes: Vec<u8>,
}

impl View for Frame {
    type V = Seq<u8>;

    closed spec fn view(&self) -> Seq<u8> {
        self.bytes@
    }
}

impl Frame {
    /// A frame is exactly 32 bytes.
    pub open spec fn wf(&self) -> bool {
        self@.len() == FRAME_LEN
    }

    /// The raw wire bytes of the frame.
    pub fn bytes(&self) -> (r: &Vec<u8>)
        ensures
            r@ == self@,
    {
        &self.bytes
    }

    /// Wraps 32 bytes read off the wire; any other length indicates a
    /// desynchronized channel.
    pub fn from_bytes(bytes: Vec<u8>) -> (r: Result<Frame, Error>)
        ensures
            bytes@.len() == FRAME_LEN ==> (r matches Ok(f) && f@ == bytes@ && f.wf()),
            bytes@.len() != FRAME_LEN ==> r == Err::<Frame, Error>(Error::ProtocolSizeError),
    {
        if bytes.len() == FRAME_LEN {
            Ok(Frame { bytes })
        } else {
            Err(Error::ProtocolSizeError)
        }
    }
}

/// Extends `bytes` with zeros up to the fixed frame length.
fn zero_pad(bytes: &mut Vec<u8>)
    requires
        old(bytes)@.len() <= 32,
    ensures
        final(bytes)@.len() == 32,
        forall|i: int| 0 <= i < old(bytes)@.len() ==> final(bytes)@[i] == old(bytes)@[i],
        forall|i: int| old(bytes)@.len() <= i < 32 ==> final(bytes)@[i] == 0u8,
{
    while bytes.len() < 32
        invariant
            old(bytes)@.len() <= bytes@.len() <= 32,
            forall|i: int| 0 <= i < old(bytes)@.len() ==> bytes@[i] == old(bytes)@[i],
            forall|i: int| old(bytes)@.len() <= i < bytes@.len() ==> bytes@[i] == 0u8,
        decreases 32 - bytes@.len(),
    {
        bytes.push(0u8);
    }
}

/// Builds the request frame for a simple attribute read.
pub fn build_simple_get(command: u16) -> (r: Frame)
    ensures
        r.wf(),
        r@ == spec_simple_get(command),
{
    let mut bytes: Vec<u8> = Vec::new();
    bytes.push(OP_SIMPLE_GET);
    bytes.push((command / 256) as u8);
    bytes.push((command % 256) as u8);
    zero_pad(&mut bytes);
    assert(bytes@ =~= spec_simple_get(command));
    Frame { bytes }
}

/// Builds the request frame for a simple attribute write.
pub fn build_simple_set(command: u16, value: u16) -> (r: Frame)
    ensures
        r.wf(),
        r@ == spec_simple_set(command, value),
{
    let mut bytes: Vec<u8> = Vec::new();
    bytes.push(OP_SIMPLE_SET);
    bytes.push((command / 256) as u8);
    bytes.push((command % 256) as u8);
    bytes.push((value / 256) as u8);
    bytes.push((value % 256) as u8);
    zero_pad(&mut bytes);
    assert(bytes@ =~= spec_simple_set(command, value));
    Frame { bytes }
}

/// Builds the request frame for a chunk read. The chunk size limit is the
/// caller's to enforce; see the chunked-transfer functions.
pub fn build_chunk_read(address: u16, length: u8) -> (r: Frame)
    requires
        length <= CHUNK_CAPACITY,
    ensures
        r.wf(),
        r@ == spec_chunk_read(address, length),
{
    let mut bytes: Vec<u8> = Vec::new();
    bytes.push(OP_CHUNK_READ);
    bytes.push((address / 256) as u8);
    bytes.push((address % 256) as u8);
    bytes.push(length);
    zero_pad(&mut bytes);
    assert(bytes@ =~= spec_chunk_read(address, length));
    Frame { bytes }
}

/// Builds the request frame for a chunk write. Fails, before anything touches
/// the channel, when the payload exceeds the frame's remaining capacity.
pub fn build_chunk_write(address: u16, data: &[u8]) -> (r: Result<Frame, Error>)
    ensures
        data@.len() <= CHUNK_CAPACITY ==> (r matches Ok(f) && f.wf() && f@ == spec_chunk_write(
            address,
            data@,
        )),
        data@.len() > CHUNK_CAPACITY ==> r == Err::<Frame, Error>(Error::PayloadTooLarge),
{
    if data.len() > CHUNK_CAPACITY as usize {
        return Err(Error::PayloadTooLarge);
    }
    let mut bytes: Vec<u8> = Vec::new();
    bytes.push(OP_CHUNK_WRITE);
    bytes.push((address / 256) as u8);
    bytes.push((address % 256) as u8);
    bytes.push(data.len() as u8);
    let mut k: usize = 0;
    while k < data.len()
        invariant
            k <= data@.len() <= CHUNK_CAPACITY,
            bytes@.len() == 4 + k,
            bytes@[0] == OP_CHUNK_WRITE,
            bytes@[1] == spec_hi(address),
            bytes@[2] == spec_lo(address),
            bytes@[3] == data@.len() as u8,
            forall|i: int| 0 <= i < k ==> bytes@[4 + i] == data@[i],
        decreases data@.len() - k,
    {
        bytes.push(data[k]);
        k += 1;
    }
    zero_pad(&mut bytes);
    assert(bytes@ =~= spec_chunk_write(address, data@));
    Ok(Frame { bytes })
}

/// The payload of a simple-get response: bytes 3..32.
pub fn simple_get_payload(frame: &Frame) -> (r: Vec<u8>)
    requires
        frame.wf(),
    ensures
        r@ == frame@.subrange(3, 32),
{
    let bytes = frame.bytes();
    let mut r: Vec<u8> = Vec::new();
    let mut k: usize = 3;
    while k < 32
        invariant
            frame.wf(),
            bytes@ == frame@,
            3 <= k <= 32,
            r@.len() == k - 3,
            forall|i: int| 0 <= i < r@.len() ==> r@[i] == frame@[3 + i],
        decreases 32 - k,
    {
        r.push(bytes[k]);
        k += 1;
    }
    assert(r@ =~= frame@.subrange(3, 32));
    r
}

/// The payload of a chunk-read response: bytes 4..4+n, where n is the
/// length byte the device echoed at offset 3. An echoed length beyond the
/// frame's capacity indicates a desynchronized channel.
pub fn chunk_read_payload(frame: &Frame) -> (r: Result<Vec<u8>, Error>)
    requires
        frame.wf(),
    ensures
        frame@[3] <= CHUNK_CAPACITY ==> (r matches Ok(p) && p@ == frame@.subrange(
            4,
            4 + frame@[3] as int,
        )),
        frame@[3] > CHUNK_CAPACITY ==> r == Err::<Vec<u8>, Error>(Error::ProtocolSizeError),
{
    let bytes = frame.bytes();
    let n = bytes[3];
    if n > CHUNK_CAPACITY {
        return Err(Error::ProtocolSizeError);
    }
    let mut r: Vec<u8> = Vec::new();
    let mut k: usize = 0;
    while k < n as usize
        invariant
            frame.wf(),
            bytes@ == frame@,
            n == frame@[3],
            n <= CHUNK_CAPACITY,
            k <= n,
            r@.len() == k,
            forall|i: int| 0 <= i < r@.len() ==> r@[i] == frame@[4 + i],
        decreases n - k,
    {
        r.push(bytes[4 + k]);
        k += 1;
    }
    assert(r@ =~= frame@.subrange(4, 4 + frame@[3] as int));
    Ok(r)
}

/// The 16-bit value held big-endian at bytes 3..5 of a response frame.
pub fn response_value(frame: &Frame) -> (r: u16)
    requires
        frame.wf(),
    ensures
        r == spec_be16(frame@, 3),
{
    let bytes = frame.bytes();
    bytes[3] as u16 * 256 + bytes[4] as u16
}

} // verus!
