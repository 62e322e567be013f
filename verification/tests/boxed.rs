use tick_channel::bits::{BitReader, BitWriter};
use tick_channel::wire::Serde;

#[test]
fn read_write() {
    // Write
    let mut writer = BitWriter::new();

    let in_1 = Box::new(123);
    let in_2 = Box::new(true);

    in_1.ser(&mut writer);
    in_2.ser(&mut writer);

    let (buffer_length, buffer) = writer.flush();

    // Read

    let mut reader = BitReader::new(buffer_length, buffer);

    let out_1 = reader.read().unwrap();
    let out_2 = reader.read().unwrap();

    assert_eq!(in_1, out_1);
    assert_eq!(in_2, out_2);
}
