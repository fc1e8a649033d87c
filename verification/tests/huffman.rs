use bitstream::huffman::write_huffman;
use bitstream::BigEndian;
use bitstream::BitError;
use bitstream::BitReader;
use bitstream::BitWriter;
use bitstream::ReadHuffmanTree;

// A hand-compiled decode table for the code a = 0, b = 10, c = 110,
// d = 111, most significant bit first. The table is indexed by the
// accumulator state 2^bits + value; walking the byte 0b10110111 decodes
// b, c, d in turn.
fn tiny_tree() -> Vec<ReadHuffmanTree<char>> {
    let mut tree: Vec<ReadHuffmanTree<char>> = Vec::new();
    for _ in 0..512 {
        tree.push(ReadHuffmanTree::InvalidState);
    }
    // the empty accumulator: fetch a byte and decode its prefix
    let mut sub: Vec<ReadHuffmanTree<char>> = Vec::new();
    for byte in 0..=255u16 {
        // decode the first symbol of the byte, leaving the rest buffered
        let b = byte as u8;
        let node = if b >> 7 == 0 {
            // 0 -> 'a', 7 bits left
            ReadHuffmanTree::Done('a', b & 0x7F, 7)
        } else if (b >> 6) & 1 == 0 {
            // 10 -> 'b', 6 bits left
            ReadHuffmanTree::Done('b', b & 0x3F, 6)
        } else if (b >> 5) & 1 == 0 {
            // 110 -> 'c', 5 bits left
            ReadHuffmanTree::Done('c', b & 0x1F, 5)
        } else {
            // 111 -> 'd', 5 bits left
            ReadHuffmanTree::Done('d', b & 0x1F, 5)
        };
        sub.push(node);
    }
    tree[1] = ReadHuffmanTree::Continue(sub);
    // states that the walk of 0b10110111 reaches after each symbol
    // 6 bits 0b110111 buffered: next symbol 'c', leaving 0b111
    tree[(1 << 6) | 0b110111] = ReadHuffmanTree::Done('c', 0b111, 3);
    // 3 bits 0b111 buffered: next symbol 'd', leaving nothing
    tree[(1 << 3) | 0b111] = ReadHuffmanTree::Done('d', 0, 0);
    tree
}

#[test]
fn test_read_huffman() {
    let tree = tiny_tree();
    let mut r = BitReader::endian(vec![0b10110111], BigEndian);
    assert_eq!(r.read_huffman(&tree).unwrap(), 'b');
    assert_eq!(r.read_huffman(&tree).unwrap(), 'c');
    assert_eq!(r.read_huffman(&tree).unwrap(), 'd');
}

#[test]
fn test_read_huffman_errors() {
    // an empty stream cannot satisfy a fetch
    let tree = tiny_tree();
    let mut r = BitReader::endian(Vec::new(), BigEndian);
    assert_eq!(r.read_huffman(&tree).unwrap_err(), BitError::UnexpectedEnd);

    // a state that maps to no valid entry is a table defect
    let mut bad: Vec<ReadHuffmanTree<char>> = Vec::new();
    for _ in 0..512 {
        bad.push(ReadHuffmanTree::InvalidState);
    }
    let mut r = BitReader::endian(vec![0xFF], BigEndian);
    assert_eq!(r.read_huffman(&bad).unwrap_err(), BitError::InvalidTable);
}

#[test]
fn test_write_huffman() {
    // codes for b = 10, c = 110, d = 111: together one byte 0b10110111
    let mut w = BitWriter::endian(Vec::new(), BigEndian);
    write_huffman(&mut w, &vec![(2, 0b10)]).unwrap();
    write_huffman(&mut w, &vec![(3, 0b110)]).unwrap();
    write_huffman(&mut w, &vec![(3, 0b111)]).unwrap();
    assert_eq!(w.into_writer(), vec![0b10110111]);
}

#[test]
fn test_huffman_round_trip() {
    let tree = tiny_tree();
    let mut w = BitWriter::endian(Vec::new(), BigEndian);
    // b c d, one segment per symbol: together the byte 0b10110111
    write_huffman(&mut w, &vec![(2, 0b10)]).unwrap();
    write_huffman(&mut w, &vec![(3, 0b110)]).unwrap();
    write_huffman(&mut w, &vec![(3, 0b111)]).unwrap();
    let data = w.into_writer();
    let mut r = BitReader::endian(data, BigEndian);
    assert_eq!(r.read_huffman(&tree).unwrap(), 'b');
    assert_eq!(r.read_huffman(&tree).unwrap(), 'c');
    assert_eq!(r.read_huffman(&tree).unwrap(), 'd');
}
