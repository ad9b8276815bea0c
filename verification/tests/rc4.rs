use rc4::data::RC4DataStream;
use rc4::error::InvalidKey;
use rc4::mem::MemReader;
use rc4::raw::RC4RawStream;
use rc4::reader::Reader;

/// Reads until `len` bytes have come, as many calls as that takes.
fn read_exact<R: Reader>(reader: &mut R, len: usize) -> Result<Vec<u8>, Option<R::Error>> {
    let mut out = vec![0u8; len];
    let mut got = 0;
    while got < len {
        match reader.read(&mut out[got..]) {
            Ok(0) => return Err(None),
            Ok(n) => got += n,
            Err(e) => return Err(Some(e)),
        }
    }
    Ok(out)
}

fn to_hex(bytes: &[u8]) -> String {
    let mut s = String::new();
    for b in bytes {
        s.push_str(&format!("{:02X}", b));
    }
    s
}

fn cmp_hex<R: Reader>(mut reader: R, hex: &str) {
    let buf = match read_exact(&mut reader, hex.len() / 2) {
        Ok(buf) => buf,
        Err(_) => panic!("the reader ended or failed"),
    };
    assert_eq!(to_hex(&buf), hex.to_owned());
}

fn test_rc4_raw(key: &str, hex: &str) {
    let stream = RC4RawStream::new(key.as_bytes()).unwrap();
    cmp_hex(stream, hex);
}

fn test_rc4_data(key: &str, data: &str, hex: &str) {
    let data = MemReader::new(data.as_bytes().to_vec());
    let stream = RC4DataStream::new(key.as_bytes(), data).unwrap();
    cmp_hex(stream, hex);
}

fn test_rc4_data_decrypt(key: &str, plain: &str) {
    let data = MemReader::new(plain.as_bytes().to_vec());
    let estream = RC4DataStream::new(key.as_bytes(), data).unwrap();
    let mut dstream = RC4DataStream::new(key.as_bytes(), estream).unwrap();
    let buf = match read_exact(&mut dstream, plain.len()) {
        Ok(buf) => buf,
        Err(_) => panic!("the reader ended or failed"),
    };
    assert_eq!(std::str::from_utf8(&buf).unwrap(), plain);
}

#[test]
fn test_raw() {
    test_rc4_raw("Key", "EB9F7781B734CA72A719");
    test_rc4_raw("Wiki", "6044DB6D41B7");
    test_rc4_raw("Secret", "04D46B053CA87B59");
}

#[test]
fn test_data() {
    test_rc4_data("Key", "Plaintext", "BBF316E8D940AF0AD3");
    test_rc4_data("Wiki", "pedia", "1021BF0420");
    test_rc4_data("Secret", "Attack at dawn", "45A01F645FC35B383552544B9BF5");
}

#[test]
fn test_data_decrypt() {
    test_rc4_data_decrypt("Key", "Plaintext");
    test_rc4_data_decrypt("Wiki", "pedia");
    test_rc4_data_decrypt("Secret", "Attack at dawn");
}

#[test]
fn empty_key_is_rejected_by_the_generator() {
    assert_eq!(RC4RawStream::new(&[]).err(), Some(InvalidKey));
}

#[test]
fn empty_key_is_rejected_by_the_data_stream() {
    let data = MemReader::new(vec![1, 2, 3]);
    assert_eq!(RC4DataStream::new(&[], data).err(), Some(InvalidKey));
}

#[test]
fn one_byte_key_is_accepted() {
    let mut stream = RC4RawStream::new(&[0]).unwrap();
    let first = stream.next_byte();
    let mut again = RC4RawStream::new(&[0]).unwrap();
    assert_eq!(again.next_byte(), first);
}

#[test]
fn key_longer_than_the_table_is_accepted() {
    let key: Vec<u8> = (0..300u32).map(|k| (k % 251) as u8).collect();
    let mut long = RC4RawStream::new(&key).unwrap();
    let mut short = RC4RawStream::new(&key[..256]).unwrap();
    let mut a = [0u8; 32];
    let mut b = [0u8; 32];
    long.fill(&mut a);
    short.fill(&mut b);
    // only the first 256 key bytes are ever indexed
    assert_eq!(a, b);
}

#[test]
fn next_byte_gives_the_known_keystream() {
    let mut stream = RC4RawStream::new(b"Key").unwrap();
    let expected = [0xEBu8, 0x9F, 0x77, 0x81, 0xB7, 0x34, 0xCA, 0x72, 0xA7, 0x19];
    for e in expected {
        assert_eq!(stream.next_byte(), e);
    }
}

#[test]
fn fill_gives_the_known_keystream() {
    let mut stream = RC4RawStream::new(b"Wiki").unwrap();
    let mut buf = [0u8; 6];
    stream.fill(&mut buf);
    assert_eq!(buf, [0x60, 0x44, 0xDB, 0x6D, 0x41, 0xB7]);
}

#[test]
fn fill_of_an_empty_buffer_uses_no_keystream() {
    let mut stream = RC4RawStream::new(b"Wiki").unwrap();
    let mut none: [u8; 0] = [];
    stream.fill(&mut none);
    assert_eq!(stream.next_byte(), 0x60);
}

#[test]
fn fill_equals_repeated_next_byte() {
    let mut one = RC4RawStream::new(b"Secret").unwrap();
    let mut two = RC4RawStream::new(b"Secret").unwrap();
    let mut buf = [0u8; 300];
    one.fill(&mut buf);
    for b in buf {
        assert_eq!(two.next_byte(), b);
    }
}

#[test]
fn generator_read_fills_the_whole_buffer() {
    let mut stream = RC4RawStream::new(b"Secret").unwrap();
    let mut buf = [0u8; 8];
    assert_eq!(stream.read(&mut buf), Ok(8));
    assert_eq!(buf, [0x04, 0xD4, 0x6B, 0x05, 0x3C, 0xA8, 0x7B, 0x59]);
}

#[test]
fn apply_keystream_masks_only_the_first_bytes() {
    let mut stream = RC4RawStream::new(b"Key").unwrap();
    let mut buf = *b"Plaintext";
    stream.apply_keystream(&mut buf, 4);
    assert_eq!(buf, [0xBB, 0xF3, 0x16, 0xE8, b'n', b't', b'e', b'x', b't']);
    // the next keystream byte is the fifth
    assert_eq!(stream.next_byte(), 0xB7);
}

#[test]
fn keystream_is_the_same_for_every_instance() {
    let mut one = RC4RawStream::new(b"a fixed key").unwrap();
    let mut two = RC4RawStream::new(b"a fixed key").unwrap();
    let mut a = vec![0u8; 10_000];
    one.fill(&mut a);
    for k in 0..10_000 {
        assert_eq!(two.next_byte(), a[k]);
    }
    let mut other = RC4RawStream::new(b"another key").unwrap();
    let mut c = vec![0u8; 10_000];
    other.fill(&mut c);
    assert_ne!(a, c);
}

#[test]
fn keystream_never_gets_stuck() {
    // a table that stopped being a permutation would soon repeat itself
    let mut stream = RC4RawStream::new(b"Key").unwrap();
    let mut seen = [false; 256];
    for _ in 0..100_000 {
        seen[stream.next_byte() as usize] = true;
    }
    assert!(seen.iter().all(|s| *s));
}

#[test]
fn mem_reader_delivers_front_to_back_and_then_ends() {
    let mut reader = MemReader::new(vec![1, 2, 3, 4, 5]);
    let mut buf = [9u8; 3];
    assert_eq!(reader.read(&mut buf), Ok(3));
    assert_eq!(buf, [1, 2, 3]);
    assert_eq!(reader.read(&mut buf), Ok(2));
    assert_eq!(buf, [4, 5, 3]);
    assert_eq!(reader.read(&mut buf), Ok(0));
    assert_eq!(buf, [4, 5, 3]);
}

#[test]
fn data_stream_leaves_the_rest_of_the_buffer() {
    let data = MemReader::new(b"pedia".to_vec());
    let mut stream = RC4DataStream::new(b"Wiki", data).unwrap();
    let mut buf = [0xAAu8; 8];
    assert_eq!(stream.read(&mut buf), Ok(5));
    assert_eq!(buf, [0x10, 0x21, 0xBF, 0x04, 0x20, 0xAA, 0xAA, 0xAA]);
}

#[test]
fn data_stream_passes_the_end_on() {
    let data = MemReader::new(b"pedia".to_vec());
    let mut stream = RC4DataStream::new(b"Wiki", data).unwrap();
    let mut buf = [0u8; 5];
    assert_eq!(stream.read(&mut buf), Ok(5));
    assert_eq!(stream.read(&mut buf), Ok(0));
    assert_eq!(buf, [0x10, 0x21, 0xBF, 0x04, 0x20]);
}

/// Delivers at most `chunk` bytes to a call, and fails once `fail_at` bytes
/// have gone out.
struct Trickle {
    data: Vec<u8>,
    pos: usize,
    chunk: usize,
    fail_at: Option<usize>,
}

impl Reader for Trickle {
    type Error = String;

    fn read(&mut self, buf: &mut [u8]) -> Result<usize, String> {
        if self.fail_at == Some(self.pos) {
            return Err(format!("broken at {}", self.pos));
        }
        let mut n = (self.data.len() - self.pos).min(buf.len()).min(self.chunk);
        if let Some(at) = self.fail_at {
            n = n.min(at - self.pos);
        }
        buf[..n].copy_from_slice(&self.data[self.pos..self.pos + n]);
        self.pos += n;
        Ok(n)
    }
}

#[test]
fn partial_reads_give_the_same_output() {
    let plain = b"Attack at dawn".to_vec();
    let expected = "45A01F645FC35B383552544B9BF5";
    for chunk in 1..=plain.len() {
        let source = Trickle { data: plain.clone(), pos: 0, chunk, fail_at: None };
        let stream = RC4DataStream::new(b"Secret", source).unwrap();
        cmp_hex(stream, expected);
    }
}

#[test]
fn partial_reads_count_bytes_not_calls() {
    let source = Trickle { data: b"Plaintext".to_vec(), pos: 0, chunk: 2, fail_at: None };
    let mut stream = RC4DataStream::new(b"Key", source).unwrap();
    let mut buf = [0u8; 9];
    assert_eq!(stream.read(&mut buf), Ok(2));
    assert_eq!(buf, [0xBB, 0xF3, 0, 0, 0, 0, 0, 0, 0]);
    assert_eq!(stream.read(&mut buf[2..]), Ok(2));
    assert_eq!(buf, [0xBB, 0xF3, 0x16, 0xE8, 0, 0, 0, 0, 0]);
}

#[test]
fn source_error_is_handed_on_unchanged() {
    let source = Trickle { data: b"Plaintext".to_vec(), pos: 0, chunk: 9, fail_at: Some(4) };
    let mut stream = RC4DataStream::new(b"Key", source).unwrap();
    let mut buf = [0u8; 9];
    assert_eq!(stream.read(&mut buf), Ok(4));
    assert_eq!(stream.read(&mut buf[4..]), Err("broken at 4".to_owned()));
    // the failed call masked nothing
    assert_eq!(buf, [0xBB, 0xF3, 0x16, 0xE8, 0, 0, 0, 0, 0]);
}

#[test]
fn round_trip_gives_the_data_back() {
    let key = [0x01u8, 0x02, 0x03, 0x04, 0x05];
    let plain: Vec<u8> = (0..1000u32).map(|k| (k * 7 % 256) as u8).collect();
    let inner = RC4DataStream::new(&key, MemReader::new(plain.clone())).unwrap();
    let mut outer = RC4DataStream::new(&key, inner).unwrap();
    let back = match read_exact(&mut outer, plain.len()) {
        Ok(buf) => buf,
        Err(_) => panic!("the reader ended or failed"),
    };
    assert_eq!(back, plain);
}

#[test]
fn round_trip_needs_the_same_key() {
    let plain = b"Attack at dawn".to_vec();
    let inner = RC4DataStream::new(b"Secret", MemReader::new(plain.clone())).unwrap();
    let mut outer = RC4DataStream::new(b"Secrets", inner).unwrap();
    let back = match read_exact(&mut outer, plain.len()) {
        Ok(buf) => buf,
        Err(_) => panic!("the reader ended or failed"),
    };
    assert_ne!(back, plain);
}

#[test]
fn enciphering_then_deciphering_in_two_steps() {
    let plain = b"Plaintext".to_vec();
    let mut enc = RC4DataStream::new(b"Key", MemReader::new(plain.clone())).unwrap();
    let cipher = match read_exact(&mut enc, plain.len()) {
        Ok(buf) => buf,
        Err(_) => panic!("the reader ended or failed"),
    };
    assert_eq!(to_hex(&cipher), "BBF316E8D940AF0AD3");
    let mut dec = RC4DataStream::new(b"Key", MemReader::new(cipher)).unwrap();
    let back = match read_exact(&mut dec, plain.len()) {
        Ok(buf) => buf,
        Err(_) => panic!("the reader ended or failed"),
    };
    assert_eq!(back, plain);
}
