use asahi_m4::cdm::{block_size, resource, Memory};
use asahi_m4::error::Error;

const BASE: u64 = 0x10_0000_1000;

struct Client {
    stream: Vec<u8>,
    readable: u64,
    covers: Vec<(u64, u64, u32)>,
    reads: Vec<(u64, usize)>,
}

fn client(stream: Vec<u8>, readable: u64) -> Client {
    Client { stream, readable, covers: Vec::new(), reads: Vec::new() }
}

impl Memory for Client {
    fn read(&mut self, address: u64, out: &mut [u8]) -> Result<(), Error> {
        self.reads.push((address, out.len()));
        let at = (address - BASE) as usize;
        match self.stream.get(at..at + out.len()) {
            Some(bytes) => {
                out.copy_from_slice(bytes);
                Ok(())
            }
            None => Err(Error::EIO),
        }
    }

    fn cover(&mut self, address: u64, size: u64, permissions: u32) -> Result<(), Error> {
        self.covers.push((address, size, permissions));
        if permissions == 2 && (address < self.readable || address >= 0x100_0000_0000) {
            Ok(())
        } else {
            Err(Error::EINVAL)
        }
    }
}

fn launch(mode: u32, pipeline: u64) -> Vec<u8> {
    let size = [0x28, 0x24, 0x18][mode as usize];
    let mut block = vec![0u8; size];
    put32(&mut block, 0, mode << 27);
    put32(&mut block, 8, (pipeline / 0x40) as u32);
    put32(&mut block, 12, 0x4000_0000 | (pipeline >> 40) as u32);
    block
}

fn words(words: &[u32]) -> Vec<u8> {
    words.iter().flat_map(|w| w.to_le_bytes()).collect()
}

fn walk(blocks: &[Vec<u8>]) -> Result<u64, Error> {
    let stream = blocks.concat();
    let end = BASE + stream.len() as u64;
    resource(&mut client(stream, end + 0x1000), BASE, end)
}

fn put32(block: &mut [u8], at: usize, value: u32) {
    block[at..at + 4].copy_from_slice(&value.to_le_bytes());
}

const END: u32 = 0x4000_0000;
const RETURN: u32 = 0x8000_0000;

#[test]
fn block_sizes() {
    assert_eq!(block_size(0), Ok(0x28));
    assert_eq!(block_size(1 << 27), Ok(0x24));
    assert_eq!(block_size(2 << 27), Ok(0x18));
    assert_eq!(block_size(3 << 27), Err(Error::EINVAL));
    assert_eq!(block_size(0x3000_0010), Ok(8));
    assert_eq!(block_size(END), Ok(4));
    assert_eq!(block_size(0x6000_0000), Ok(4));
    assert_eq!(block_size(RETURN), Ok(4));
    assert_eq!(block_size(0xa000_0000), Err(Error::EINVAL));
}

#[test]
fn streams_select_one_table() {
    let p = 0x100_0008_0040;
    assert_eq!(walk(&[launch(0, p), words(&[END])]), Ok(0x100_000d_0000));
    assert_eq!(walk(&[launch(0, p), words(&[0x6000_0000]), launch(0, p + 0x40), words(&[END])]), Ok(0x100_000d_0000));
    assert_eq!(walk(&[launch(0, p), launch(0, p + 0x8000), words(&[END])]), Err(Error::ENOTSUPP));
    assert_eq!(walk(&[words(&[END])]), Err(Error::ENOTSUPP));
    assert_eq!(walk(&[launch(0, 0xff_0000_0000), words(&[END])]), Err(Error::EINVAL));
    assert_eq!(walk(&[launch(0, 0x100_ffff_8000), words(&[END])]), Err(Error::EINVAL));
    let mut unflagged = launch(0, p);
    put32(&mut unflagged, 12, 1);
    assert_eq!(walk(&[unflagged, words(&[END])]), Err(Error::EINVAL));
}

#[test]
fn indirect_launches_read_their_size() {
    let p = 0x100_0008_0040;
    let mut indirect = launch(1, p);
    put32(&mut indirect, 0x10, 0x10);
    put32(&mut indirect, 0x14, 0x40);
    assert_eq!(walk(&[indirect.clone(), words(&[END])]), Ok(0x100_000d_0000));
    put32(&mut indirect, 0x10, 0x20);
    assert_eq!(walk(&[indirect, words(&[END])]), Err(Error::EINVAL));
}

#[test]
fn streams_call_and_return() {
    let p = 0x100_0008_0040;
    let target = (BASE + 12) as u32;
    let call = words(&[0x3000_0010, target, END]);
    assert_eq!(walk(&[call.clone(), launch(0, p), words(&[RETURN])]), Err(Error::EINVAL));
    let jump = words(&[0x2000_0010, (BASE + 8) as u32]);
    assert_eq!(walk(&[jump, launch(0, p), words(&[END])]), Ok(0x100_000d_0000));
    let sub = words(&[0x3000_0010, (BASE + 12) as u32, 0x6000_0000]);
    assert_eq!(walk(&[sub, launch(0, p), words(&[END])]), Err(Error::EINVAL));
    let skip = words(&[0x2000_0010, (BASE + 8 + 0x28 + 4) as u32]);
    let back = words(&[0x3000_0010, (BASE + 8) as u32, END]);
    assert_eq!(walk(&[skip, launch(0, p), words(&[RETURN]), back]), Ok(0x100_000d_0000));
    assert_eq!(walk(&[words(&[RETURN])]), Err(Error::EINVAL));
}

#[test]
fn streams_are_bounded() {
    assert_eq!(walk(&[words(&[0x2000_0010, BASE as u32])]), Err(Error::EINVAL));
    assert_eq!(walk(&[words(&[0x3000_0010, BASE as u32])]), Err(Error::EINVAL));
    assert_eq!(walk(&[words(&[0x2000_0010, 0x400])]), Err(Error::EINVAL));
    assert_eq!(walk(&[words(&[0])]), Err(Error::EINVAL));
    let mut c = client(vec![], u64::MAX);
    assert_eq!(resource(&mut c, BASE, BASE), Err(Error::EINVAL));
    assert_eq!(resource(&mut c, BASE + 2, BASE + 8), Err(Error::EINVAL));
    assert_eq!(resource(&mut c, BASE, BASE + 6), Err(Error::EINVAL));
    // Bad bounds are refused without asking the memory.
    assert!(c.covers.is_empty() && c.reads.is_empty());
    assert_eq!(resource(&mut c, BASE, BASE + 8), Err(Error::EIO));
    assert_eq!((c.covers, c.reads), (vec![(BASE, 8, 2)], vec![(BASE, 4)]));
    let mut c = client(vec![0; 64], 0);
    assert_eq!(resource(&mut c, BASE, BASE + 8), Err(Error::EINVAL));
    assert_eq!((c.covers.len(), c.reads.len()), (1, 0));
    // A cycle ends with the budget, and is read inside the stream.
    let mut c = client(words(&[0x2000_0010, BASE as u32]), u64::MAX);
    assert_eq!(resource(&mut c, BASE, BASE + 8), Err(Error::EINVAL));
    assert_eq!(c.reads.len(), 2 * 4096);
    assert!(c.reads.iter().all(|(address, size)| *address >= BASE && address + *size as u64 <= BASE + 8));
}

#[test]
fn streams_ask_for_what_they_name() {
    let p = 0x100_0000_0000;
    let mut indirect = launch(2, p);
    put32(&mut indirect, 0x10, 0x10);
    put32(&mut indirect, 0x14, 0x40);
    let stream = [launch(0, p), indirect, words(&[END])].concat();
    let end = BASE + stream.len() as u64;
    let mut c = client(stream, end);
    assert_eq!(resource(&mut c, BASE, end), Ok(0x100_0005_0000));
    assert_eq!(c.covers, vec![(BASE, 0x44, 2), (0x10_0000_0040, 24, 2), (0x100_0005_0000, 0x4000, 2)]);
    assert_eq!(
        c.reads,
        vec![
            (BASE, 4),
            (BASE + 4, 0x24),
            (BASE + 0x28, 4),
            (BASE + 0x2c, 0x14),
            (BASE + 0x40, 4),
            (BASE + 0x44, 0),
        ]
    );
    // A terminator alone launches nothing.
    assert_eq!(resource(&mut c, BASE + 0x40, end), Err(Error::ENOTSUPP));
    assert_eq!(c.covers.last(), Some(&(BASE + 0x40, 4, 2)));
}
