use rustytorrent::io::ReadBuffer;

#[test]
fn write_then_read_gives_bytes_back() {
    let mut buffer = ReadBuffer::new(8);
    assert_eq!(buffer.unread(), 0);
    assert_eq!(buffer.unused(), 8);
    assert_eq!(buffer.write(b"hello").unwrap(), 5);
    assert_eq!(buffer.get_unread(), b"hello");
    let mut out = [0u8; 3];
    assert_eq!(buffer.read(&mut out), 3);
    assert_eq!(&out, b"hel");
    assert_eq!(buffer.get_unread(), b"lo");
    assert_eq!(buffer.unused(), 3);
}

#[test]
fn write_past_room_moves_unread_to_front() {
    let mut buffer = ReadBuffer::new(8);
    buffer.write(b"abcdef").unwrap();
    buffer.consume(4);
    assert_eq!(buffer.write(b"xyz").unwrap(), 3);
    assert_eq!(buffer.get_unread(), b"efxyz");
    assert_eq!(buffer.unused(), 3);
    assert!(buffer.write(b"1234").is_err());
    assert_eq!(buffer.get_unread(), b"efxyz");
}

#[test]
fn consume_clear_and_shift() {
    let mut buffer = ReadBuffer::new(10);
    buffer.write(b"0123456789").unwrap();
    buffer.consume(6);
    assert_eq!(buffer.get_unread(), b"6789");
    assert_eq!(buffer.unused(), 0);
    buffer.shift_left();
    assert_eq!(buffer.get_unread(), b"6789");
    assert_eq!(buffer.unused(), 6);
    buffer.clear();
    assert_eq!(buffer.unread(), 0);
    assert_eq!(buffer.unused(), 10);
}

#[test]
fn unused_room_is_filled_then_counted() {
    let mut buffer = ReadBuffer::new(4);
    {
        let room = buffer.get_unused_mut();
        assert_eq!(room.len(), 4);
        room[0] = b'a';
        room[1] = b'b';
    }
    buffer.added_unused(2);
    assert_eq!(buffer.get_unread(), b"ab");
}

#[test]
fn read_from_a_reader() {
    let mut buffer = ReadBuffer::new(4);
    let mut source: &[u8] = b"abcdef";
    assert_eq!(buffer.read_from(&mut source).unwrap(), 4);
    assert_eq!(buffer.get_unread(), b"abcd");
    assert_eq!(buffer.read_from(&mut source).unwrap(), 0);
}

#[test]
fn read_at_least_from_a_reader() {
    let mut buffer = ReadBuffer::new(6);
    let mut source: &[u8] = b"abcdefgh";
    assert!(buffer.read_at_least_from(4, &mut source).unwrap());
    assert_eq!(buffer.get_unread(), b"abcdef");
    assert!(buffer.read_at_least_from(2, &mut source).unwrap());
    buffer.consume(5);
    assert!(buffer.read_at_least_from(3, &mut source).unwrap());
    assert_eq!(buffer.get_unread(), b"fgh");
    assert!(!buffer.read_at_least_from(5, &mut source).unwrap());
    assert!(buffer.read_at_least_from(7, &mut source).is_err());
}

#[test]
fn the_reader_is_left_alone_when_not_needed() {
    let mut buffer = ReadBuffer::new(6);
    buffer.write(b"abcd").unwrap();
    let mut source: &[u8] = b"xy";
    assert!(buffer.read_at_least_from(3, &mut source).unwrap());
    assert_eq!(source, b"xy");
    assert_eq!(buffer.get_unread(), b"abcd");
    assert!(buffer.read_at_least_from(7, &mut source).is_err());
    assert_eq!(source, b"xy");
    assert_eq!(buffer.get_unread(), b"abcd");
}

#[test]
fn prepend_puts_bytes_in_front() {
    let mut buffer = ReadBuffer::new(8);
    buffer.write(b"abcdef").unwrap();
    buffer.consume(4);
    buffer.prepend_unread(b"xy");
    assert_eq!(buffer.get_unread(), b"xyef");
    buffer.prepend_unread(b"123");
    assert_eq!(buffer.get_unread(), b"123xyef");
    buffer.prepend_unread(b"LONG");
    assert_eq!(buffer.get_unread(), b"LONG123xyef");
    buffer.consume(4);
    assert_eq!(buffer.get_unread(), b"123xyef");
}

#[test]
fn read_outcomes_map_would_block_to_false() {
    let would_block = std::io::Error::from(std::io::ErrorKind::WouldBlock);
    assert_eq!(ReadBuffer::read_outcome(Ok(3), false, 4).unwrap(), false);
    assert_eq!(ReadBuffer::read_outcome(Ok(4), false, 4).unwrap(), true);
    assert_eq!(ReadBuffer::read_outcome(Err(would_block), true, 4).unwrap(), false);
    let other = std::io::Error::from(std::io::ErrorKind::Other);
    assert!(ReadBuffer::read_outcome(Err(other), false, 4).is_err());
}
