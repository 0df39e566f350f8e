use lzss::{Lzss, LzssError, Read, Write};
use std::io::{Cursor, Error, ErrorKind};

type TestLZSS = Lzss<10, 4, 0x20, { 1 << 10 }, { 2 << 10 }>;
const TEST_DATA: &[u8; 27] = b"Sample   Data   11221233123";

struct IOSimpleReader<'a, R: std::io::Read>(&'a mut R);

impl<'a, R: std::io::Read> Read for IOSimpleReader<'a, R> {
    type Error = Error;
    fn read(&mut self) -> Result<Option<u8>, Self::Error> {
        let mut buf = [0; 1];
        if self.0.read(&mut buf)? == 0 {
            Ok(None)
        } else {
            Ok(Some(buf[0]))
        }
    }
}

struct IOSimpleWriter<'a, W: std::io::Write>(&'a mut W);

impl<'a, W: std::io::Write> Write for IOSimpleWriter<'a, W> {
    type Output = ();
    type Error = Error;
    fn write(&mut self, data: u8) -> Result<(), Self::Error> {
        let buf = [data];
        self.0.write_all(&buf)
    }
    fn finish(self) -> Result<Self::Output, Self::Error> {
        self.0.flush()
    }
}

#[test]
fn test_simple_io() {
    let mut output = [0u8; 30];
    let mut output_cursor = Cursor::new(&mut output[..]);
    let output_result = TestLZSS::compress(
        IOSimpleReader(&mut Cursor::new(TEST_DATA)),
        IOSimpleWriter(&mut output_cursor),
    );
    assert_eq!(
        output_result.map_err(|x| x.map_read_error(|x| x.kind()).map_write_error(|x| x.kind())),
        Ok(())
    );
    assert_eq!(output_cursor.position(), 26);
}

#[test]
fn test_simple_io_fail() {
    let mut output = [0u8; 10];
    let mut output_cursor = Cursor::new(&mut output[..]);
    let output_result = TestLZSS::compress(
        IOSimpleReader(&mut Cursor::new(TEST_DATA)),
        IOSimpleWriter(&mut output_cursor),
    );
    assert_eq!(
        output_result.map_err(|x| x.map_read_error(|x| x.kind()).map_write_error(|x| x.kind())),
        Err(LzssError::WriteError(ErrorKind::WriteZero))
    );
}
