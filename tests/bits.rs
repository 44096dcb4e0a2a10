use simple_file_compressor::bits::{Bit, BitQueue, CompressedBuffer};

#[test]
fn bit_queue_test() {
    let mut bit_queue = BitQueue::new();
    bit_queue.add_assign(3);

    // 0 followed by 3 1s
    assert_eq!(vec![0, 1, 1, 1], bit_queue.bit_followed_by_inverted(0));

    bit_queue.add_assign(2);

    // 1 followed by 2 0s
    assert_eq!(vec![1, 0, 0], bit_queue.bit_followed_by_inverted(1));
}

#[test]
fn pushing_bit() {
    let mut compressed_buffer = CompressedBuffer::new();

    // We wish to encode 'faced' with f: 0, c: 100, d: 101, a: 1100, b: 1101, e: 111
    let encoded: Vec<u8> = vec![0, 1, 1, 0, 0, 1, 0, 0, 1, 1, 1, 1, 0, 1];

    for bit in encoded {
        match bit {
            0 => compressed_buffer.push_bit(Bit::ZERO),
            1 => compressed_buffer.push_bit(Bit::ONE),
            _ => panic!("should not be possible"),
        }
    }

    assert_eq!(compressed_buffer.buffer[0], 0b0110_0100);
    assert_eq!(compressed_buffer.buffer[1], 0b1111_0100);
    // 14 bits: the last one sits at position 5 of the second byte
    assert_eq!(5, compressed_buffer.get_current_bit_index());
}

#[test]
fn bit_queue_without_debt_emits_one_bit() {
    let mut q = BitQueue::new();
    assert_eq!(vec![1], q.bit_followed_by_inverted(1));
}
