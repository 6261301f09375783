use bmc_installer::util::{ReadExt, ReceiverReader};
use std::io;
use std::sync::mpsc::{channel, Receiver};

/// A read as the program does it: from what is kept, then from the channel.
fn read(rr: &mut ReceiverReader, receiver: &Receiver<Vec<u8>>, buf: &mut [u8]) -> io::Result<usize> {
    let total_len = buf.len();
    let mut position = rr.take_buffered_bytes(buf);
    while position < total_len {
        match receiver.recv() {
            Ok(bytes) => position = rr.accept(buf, position, &bytes),
            Err(_) => {
                return match ReceiverReader::after_failure(position) {
                    Some(len) => Ok(len),
                    None => Err(io::Error::new(io::ErrorKind::BrokenPipe, "channel closed")),
                };
            }
        }
    }
    Ok(position)
}

#[test]
fn receive_once_and_drain_buffer_test() {
    let (sender, receiver) = channel::<Vec<u8>>();
    let mut rr = ReceiverReader::new();
    sender.send(vec![1, 2]).unwrap();
    drop(sender);

    let mut buffer = [0u8; 5];
    read(&mut rr, &receiver, &mut buffer[0..1]).unwrap();
    assert_eq!(buffer[0], 1);
    read(&mut rr, &receiver, &mut buffer[0..1]).unwrap();
    assert_eq!(buffer[0], 2);
    assert!(read(&mut rr, &receiver, &mut buffer[0..1]).is_err());
}

#[test]
fn drain_buffer_and_new_read_available_test() {
    let (sender, receiver) = channel::<Vec<u8>>();
    let mut rr = ReceiverReader::new();
    sender.send(vec![1, 2]).unwrap();

    let mut buffer = [0u8; 5];
    read(&mut rr, &receiver, &mut buffer[0..1]).unwrap();
    assert_eq!(buffer[0], 1);
    read(&mut rr, &receiver, &mut buffer[0..1]).unwrap();
    assert_eq!(buffer[0], 2);
    sender.send(vec![8, 9]).unwrap();
    read(&mut rr, &receiver, &mut buffer[0..2]).unwrap();
    assert_eq!(vec![8, 9], buffer[0..2]);
}

#[test]
fn exhaust_reader_return_result() {
    let (sender, receiver) = channel::<Vec<u8>>();
    let mut rr = ReceiverReader::new();
    sender.send(vec![1, 2]).unwrap();
    sender.send(vec![3, 4, 5, 6, 7]).unwrap();
    let mut buffer = [0u8; 5];
    read(&mut rr, &receiver, &mut buffer).unwrap();
    assert_eq!(vec![1, 2, 3, 4, 5], buffer);
    drop(sender);

    let mut buffer = [0u8; 4];
    let res = read(&mut rr, &receiver, &mut buffer).unwrap();
    // we have exhaust the channel unable to complete the whole 4 bytes
    // read request. return the last available bytes
    assert_eq!(vec![6, 7], buffer[0..2]);
    assert_eq!(res, 2);
}

#[test]
fn test_read_to_vec() {
    let mut vec = Vec::new();
    (&[0xAA; 16][..]).read_to_vec(&mut vec, 4).unwrap();
    assert_eq!(vec, [0xAA; 4]);
    (&[0xBB; 16][..]).read_to_vec(&mut vec, 2).unwrap();
    assert_eq!(vec, [0xAA, 0xAA, 0xAA, 0xAA, 0xBB, 0xBB]);
    (&[1, 2, 3][..]).read_to_vec(&mut vec, 8).unwrap();
    assert_eq!(vec, [0xAA, 0xAA, 0xAA, 0xAA, 0xBB, 0xBB, 1, 2, 3]);
}

#[test]
fn a_slice_is_read_forward() {
    let bytes = [1u8, 2, 3, 4, 5];
    let mut source: &[u8] = &bytes;
    let mut vec = vec![0u8];
    source.read_to_vec(&mut vec, 2).unwrap();
    assert_eq!(source, [3, 4, 5]);
    source.read_to_vec(&mut vec, 0).unwrap();
    source.read_to_vec(&mut vec, 2).unwrap();
    assert_eq!(vec, [0, 1, 2, 3, 4]);
    source.read_to_vec(&mut vec, 2).unwrap();
    assert_eq!(vec, [0, 1, 2, 3, 4, 5]);
    assert!(source.is_empty());
    source.read_to_vec(&mut vec, 2).unwrap();
    assert_eq!(vec, [0, 1, 2, 3, 4, 5]);
}

#[test]
fn buffer_keeps_what_does_not_fit() {
    let mut rr = ReceiverReader::new();
    let mut buf = [0u8; 4];
    assert_eq!(rr.take_buffered_bytes(&mut buf), 0);
    assert_eq!(rr.accept(&mut buf, 1, &[7, 8, 9, 10, 11]), 4);
    assert_eq!(buf, [0, 7, 8, 9]);
    rr.push_to_buffer(&[12]);
    let mut small = [0u8; 2];
    assert_eq!(rr.take_buffered_bytes(&mut small), 2);
    assert_eq!(small, [10, 11]);
    let mut buf = [0u8; 4];
    assert_eq!(rr.take_buffered_bytes(&mut buf), 1);
    assert_eq!(buf, [12, 0, 0, 0]);
    assert_eq!(rr.accept(&mut buf, 1, &[1]), 2);
    assert_eq!(buf, [12, 1, 0, 0]);
    assert_eq!(rr.take_buffered_bytes(&mut buf), 0);
    assert_eq!(ReceiverReader::after_failure(0), None);
    assert_eq!(ReceiverReader::after_failure(3), Some(3));
}
