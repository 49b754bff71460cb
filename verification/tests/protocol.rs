use keymapctl::{
    get_current_profile, read_data, read_profile, read_profile_data, set_current_profile,
    write_data, write_profile, Channel, Error, Frame, PROFILE_DATA_LEN,
};

/// A channel that answers from a fixed script of response frames and
/// records every request written to it.
struct ScriptedChannel {
    sent: Vec<Vec<u8>>,
    responses: Vec<[u8; 32]>,
    pos: usize,
}

impl ScriptedChannel {
    fn new(responses: Vec<[u8; 32]>) -> Self {
        ScriptedChannel { sent: Vec::new(), responses, pos: 0 }
    }
}

impl Channel for ScriptedChannel {
    fn write_frame(&mut self, frame: &Frame) -> Result<(), Error> {
        self.sent.push(frame.bytes().clone());
        Ok(())
    }

    fn read_frame(&mut self) -> Result<Frame, Error> {
        if self.pos < self.responses.len() {
            let bytes = self.responses[self.pos].to_vec();
            self.pos += 1;
            Frame::from_bytes(bytes)
        } else {
            Err(Error::IoError)
        }
    }
}

/// An in-memory device: four 960-byte profiles, an active profile index,
/// and the frame dialect of the real firmware.
struct DeviceSim {
    profile: u16,
    memory: Vec<Vec<u8>>,
    queue: Vec<[u8; 32]>,
    sent: Vec<Vec<u8>>,
    fail_chunks: bool,
}

impl DeviceSim {
    fn new() -> Self {
        let mut memory = Vec::new();
        for p in 0..4u16 {
            let mut blob = Vec::with_capacity(PROFILE_DATA_LEN);
            for i in 0..PROFILE_DATA_LEN {
                blob.push(((i + 13 * p as usize) % 256) as u8);
            }
            memory.push(blob);
        }
        DeviceSim { profile: 1, memory, queue: Vec::new(), sent: Vec::new(), fail_chunks: false }
    }
}

impl Channel for DeviceSim {
    fn write_frame(&mut self, frame: &Frame) -> Result<(), Error> {
        let req = frame.bytes().clone();
        assert_eq!(req.len(), 32);
        self.sent.push(req.clone());
        let mut resp = [0u8; 32];
        match req[0] {
            0x02 => {
                // Simple get: only the current-profile command is simulated.
                if req[1] == 0x11 && req[2] == 0x01 {
                    resp[3] = (self.profile >> 8) as u8;
                    resp[4] = (self.profile & 0xff) as u8;
                }
                self.queue.push(resp);
            }
            0x03 => {
                self.profile = (req[3] as u16) << 8 | req[4] as u16;
                // A profile switch is answered with two frames.
                self.queue.push(resp);
                self.queue.push(resp);
            }
            0x12 => {
                if self.fail_chunks {
                    return Ok(());
                }
                let addr = ((req[1] as usize) << 8 | req[2] as usize) as usize;
                let n = req[3] as usize;
                resp[3] = req[3];
                let blob = &self.memory[self.profile as usize & 3];
                resp[4..4 + n].copy_from_slice(&blob[addr..addr + n]);
                self.queue.push(resp);
            }
            0x13 => {
                if self.fail_chunks {
                    return Ok(());
                }
                let addr = ((req[1] as usize) << 8 | req[2] as usize) as usize;
                let n = req[3] as usize;
                let profile = self.profile as usize & 3;
                self.memory[profile][addr..addr + n].copy_from_slice(&req[4..4 + n]);
                self.queue.push(resp);
            }
            _ => panic!("unexpected opcode {:#x}", req[0]),
        }
        Ok(())
    }

    fn read_frame(&mut self) -> Result<Frame, Error> {
        if self.queue.is_empty() {
            Err(Error::IoError)
        } else {
            Frame::from_bytes(self.queue.remove(0).to_vec())
        }
    }
}

fn be16(hi: u8, lo: u8) -> u16 {
    (hi as u16) << 8 | lo as u16
}

#[test]
fn get_current_profile_reads_bytes_3_to_5() {
    let mut resp = [0u8; 32];
    resp[3] = 0x00;
    resp[4] = 0x02;
    let mut channel = ScriptedChannel::new(vec![resp]);
    assert_eq!(get_current_profile(&mut channel), Ok(2));
    assert_eq!(channel.sent.len(), 1);
    assert_eq!(channel.sent[0][0], 0x02);
    assert_eq!(channel.sent[0][1], 0x11);
    assert_eq!(channel.sent[0][2], 0x01);
}

#[test]
fn set_current_profile_drains_both_response_frames() {
    let mut channel = ScriptedChannel::new(vec![[0u8; 32], [0u8; 32]]);
    assert_eq!(set_current_profile(&mut channel, 3), Ok(()));
    assert_eq!(channel.pos, 2, "both response frames must be read");
    let req = &channel.sent[0];
    assert_eq!(req[0], 0x03);
    assert_eq!(req[1], 0x11);
    assert_eq!(req[2], 0x01);
    assert_eq!(req[3], 0x00);
    assert_eq!(req[4], 0x03);
}

#[test]
fn set_current_profile_fails_if_second_frame_missing() {
    let mut channel = ScriptedChannel::new(vec![[0u8; 32]]);
    assert_eq!(set_current_profile(&mut channel, 0), Err(Error::IoError));
}

fn check_chunk_requests(start: u16, length: u16, c: u8) {
    let mut sim = DeviceSim::new();
    let data = read_data(&mut sim, start, length, c).expect("read must succeed");
    assert_eq!(data.len(), length as usize);
    let n = (length as usize + c as usize - 1) / c as usize;
    assert_eq!(sim.sent.len(), n, "ceil(length / C) chunk requests");
    let mut total = 0usize;
    for (i, req) in sim.sent.iter().enumerate() {
        assert_eq!(req[0], 0x12);
        assert_eq!(be16(req[1], req[2]), start + i as u16 * c as u16);
        let size = req[3] as usize;
        if i < n - 1 {
            assert_eq!(size, c as usize);
        } else {
            assert_eq!(size, length as usize - (n - 1) * c as usize);
        }
        total += size;
    }
    assert_eq!(total, length as usize, "chunk lengths sum to the range length");
}

#[test]
fn chunk_requests_follow_the_plan_for_both_chunk_sizes() {
    check_chunk_requests(0, 0x3c0, 26);
    check_chunk_requests(0, 0x3c0, 27);
    check_chunk_requests(0x120, 0x2a0, 26);
    check_chunk_requests(0x120, 0x2a0, 27);
    check_chunk_requests(5, 26, 26);
    check_chunk_requests(5, 27, 26);
    check_chunk_requests(7, 1, 27);
}

#[test]
fn read_data_returns_the_devices_bytes() {
    let mut sim = DeviceSim::new();
    let data = read_data(&mut sim, 0, 100, 26).unwrap();
    assert_eq!(&data[..], &sim.memory[1][..100]);
}

#[test]
fn write_data_stores_every_byte_in_order() {
    let mut sim = DeviceSim::new();
    let payload: Vec<u8> = (0..200u16).map(|i| (255 - i % 256) as u8).collect();
    write_data(&mut sim, 0x40, &payload, 26).unwrap();
    assert_eq!(&sim.memory[1][0x40..0x40 + 200], &payload[..]);
}

#[test]
fn with_profile_restores_after_success() {
    for p in 0..4u16 {
        let mut sim = DeviceSim::new();
        sim.profile = 1;
        let data = read_profile(&mut sim, Some(p)).expect("read must succeed");
        assert_eq!(sim.profile, 1, "active profile restored after success");
        assert_eq!(&data[..], &sim.memory[p as usize][..]);
    }
}

#[test]
fn with_profile_restores_after_failure() {
    for p in 0..4u16 {
        let mut sim = DeviceSim::new();
        sim.profile = 2;
        sim.fail_chunks = true;
        let result = read_profile(&mut sim, Some(p));
        assert_eq!(result, Err(Error::IoError));
        assert_eq!(sim.profile, 2, "active profile restored after failure");
    }
}

#[test]
fn with_no_index_there_is_no_switch() {
    let mut sim = DeviceSim::new();
    sim.profile = 3;
    let data = read_profile(&mut sim, None).expect("read must succeed");
    assert_eq!(sim.profile, 3);
    assert_eq!(&data[..], &sim.memory[3][..]);
    assert!(sim.sent.iter().all(|req| req[0] == 0x12), "chunk reads only");
}

#[test]
fn write_profile_round_trips_through_the_device() {
    let mut sim = DeviceSim::new();
    sim.profile = 0;
    let blob: Vec<u8> = (0..PROFILE_DATA_LEN).map(|i| ((i * 7 + 3) % 256) as u8).collect();
    write_profile(&mut sim, Some(2), &blob).expect("write must succeed");
    assert_eq!(sim.profile, 0, "active profile restored");
    assert_eq!(&sim.memory[2][..], &blob[..]);
    let back = read_profile(&mut sim, Some(2)).expect("read back");
    assert_eq!(back, blob);
    assert_eq!(sim.profile, 0);
}

#[test]
fn read_profile_data_returns_4_layers_of_120_scancodes() {
    let mut sim = DeviceSim::new();
    sim.profile = 0;
    let layers = read_profile_data(&mut sim).expect("read must succeed");
    assert_eq!(layers.len(), 4);
    let blob = &sim.memory[0];
    for (l, layer) in layers.iter().enumerate() {
        assert_eq!(layer.len(), 120);
        for (t, &code) in layer.iter().enumerate() {
            let base = l * 240 + 2 * t;
            assert_eq!(code, be16(blob[base], blob[base + 1]));
        }
    }
}

#[test]
fn echo_length_mismatch_is_a_protocol_size_error() {
    // A response whose echoed length byte differs from the request's.
    let mut bad = [0u8; 32];
    bad[3] = 9;
    let mut channel = ScriptedChannel::new(vec![bad]);
    assert_eq!(read_data(&mut channel, 0, 8, 26), Err(Error::ProtocolSizeError));
}

#[test]
fn write_profile_restores_after_failure() {
    let mut sim = DeviceSim::new();
    sim.profile = 3;
    sim.fail_chunks = true;
    let blob = vec![0x5au8; PROFILE_DATA_LEN];
    assert_eq!(write_profile(&mut sim, Some(0), &blob), Err(Error::IoError));
    assert_eq!(sim.profile, 3, "active profile restored after failure");
}
