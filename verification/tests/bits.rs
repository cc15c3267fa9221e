use babel_crypt::bits::{BitReader, BitWriter};

#[test]
fn fields_are_packed_from_the_low_bit() {
    let mut w = BitWriter::new();
    w.write(5, 3);
    w.write(1, 1);
    w.write(0x1ff, 9);
    assert_eq!(w.finish(), vec![0xfd, 0x1f]);
}

#[test]
fn nothing_written_is_nothing() {
    assert_eq!(BitWriter::new().finish(), Vec::<u8>::new());
}

#[test]
fn fields_are_read_back() {
    let data = [0xfdu8, 0x1f];
    let mut r = BitReader::new(&data);
    assert_eq!(r.read(3).unwrap(), 5);
    assert_eq!(r.read_bit().unwrap(), 1);
    assert_eq!(r.read(9).unwrap(), 0x1ff);
    assert_eq!(r.read(3).unwrap(), 0);
    assert_eq!(r.read(1).unwrap_err(), "EOF");
}

#[test]
fn a_field_longer_than_the_rest_is_an_error() {
    let data = [1u8];
    let mut r = BitReader::new(&data);
    assert_eq!(r.read(9).unwrap_err(), "EOF");
}
