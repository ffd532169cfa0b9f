use ome_transforms::chunk::{ChunkedIndexer, ChunksError, RegularChunker, RegularChunks};
use ome_transforms::index::{unbound_to_bound_elem, BoundedIndex, Const, NearestNeighbour, UnboundedIndex};
use ome_transforms::ndarr::{ColumnMajor, Layout, RowMajor, VecNdArray};

#[test]
fn row_and_column_major_offsets() {
    let r = RowMajor::new(&[3, 4]);
    let c = ColumnMajor::new(&[3, 4]);
    assert_eq!(r.linear_idx(&[1, 2]), Some(6));
    assert_eq!(c.linear_idx(&[1, 2]), Some(7));
    assert_eq!(r.linear_idx(&[3, 0]), None);
    assert_eq!(c.linear_idx(&[0, 4]), None);
    assert_eq!(r.linear_idx(&[1]), None);
    let r3 = RowMajor::new(&[2, 3, 4]);
    let c3 = ColumnMajor::new(&[2, 3, 4]);
    assert_eq!(r3.linear_idx(&[1, 0, 2]), Some(14));
    assert_eq!(c3.linear_idx(&[1, 0, 2]), Some(13));
    assert_eq!(r3.linear_idx(&[1, 2, 3]), Some(23));
    assert_eq!(r3.numel(), 24);
    assert_eq!(r3.contiguous_dimension(), Some(2));
    assert_eq!(c3.contiguous_dimension(), Some(0));
    assert_eq!(RowMajor::new(&[]).contiguous_dimension(), None);
}

#[test]
fn vec_nd_array_lookup() {
    let data: Vec<u8> = (0..12).collect();
    assert!(VecNdArray::new(data.clone(), RowMajor::new(&[3, 5])).is_err());
    let a = VecNdArray::new(data.clone(), RowMajor::new(&[3, 4])).unwrap();
    assert_eq!(a.get(&[2, 1]), Some(9));
    assert_eq!(a.get(&[3, 1]), None);
    assert_eq!(a.get_unchecked(&[0, 3]), 3);
    assert_eq!(a.extents(), &[3, 4]);
    assert_eq!(a.ndim(), 2);
    let chunks = a.chunks().unwrap();
    assert_eq!(chunks.len(), 3);
    assert_eq!(chunks[1], vec![4, 5, 6, 7]);
    let col = VecNdArray::new(data, ColumnMajor::new(&[3, 4])).unwrap();
    assert_eq!(col.get(&[2, 1]), Some(5));
    assert_eq!(col.chunks().unwrap()[0], vec![0, 1, 2]);
    assert_eq!(col.into_data().len(), 12);
}

#[test]
fn bounded_bulk_and_columns() {
    let a = VecNdArray::new((0..6).collect::<Vec<i32>>(), RowMajor::new(&[2, 3])).unwrap();
    let mut buf = vec![None; 3];
    a.bulk_get_into(&vec![vec![0, 0], vec![1, 2], vec![2, 0]], &mut buf);
    assert_eq!(buf, vec![Some(0), Some(5), None]);
    let mut cbuf = vec![None; 3];
    a.column_get_into(&vec![vec![0, 1, 5], vec![1, 1, 0]], &mut cbuf);
    assert_eq!(cbuf, vec![Some(1), Some(4), None]);
}

#[test]
fn const_fills_outside() {
    let a = VecNdArray::new((1..=6).collect::<Vec<i32>>(), RowMajor::new(&[2, 3])).unwrap();
    let c = Const::new(a, -1);
    assert_eq!(c.ndim(), 2);
    assert_eq!(c.get(&[1, 2]), 6);
    assert_eq!(c.get(&[-1, 0]), -1);
    assert_eq!(c.get(&[0, 3]), -1);
    let coords = vec![vec![0, 0], vec![5, 5], vec![1, 1], vec![0, -4]];
    let mut buf = vec![0; 4];
    c.bulk_get_into(&coords, &mut buf);
    assert_eq!(buf, vec![1, -1, 5, -1]);
    let mut cbuf = vec![0; 3];
    c.column_get_into(&vec![vec![0, 2, 1], vec![1, 0, 2]], &mut cbuf);
    assert_eq!(cbuf, vec![2, -1, 6]);
    let nn = NearestNeighbour::new(c);
    assert_eq!(nn.ndim(), 2);
    assert_eq!(nn.inner().get(&[0, 0]), 1);
}

#[test]
fn signed_to_unsigned_elements() {
    assert_eq!(unbound_to_bound_elem(3, 4), Some(3));
    assert_eq!(unbound_to_bound_elem(4, 4), None);
    assert_eq!(unbound_to_bound_elem(-1, 4), None);
}

#[test]
fn regular_chunker_locates() {
    assert!(RegularChunker::new(&[2, 2], &[3]).is_err());
    assert!(RegularChunker::new(&[0, 2], &[3, 3]).is_err());
    let ch = RegularChunker::new(&[4, 5], &[2, 3]).unwrap();
    let co = ch.get_chunk_idx(&[6, 11]).unwrap();
    assert_eq!(co.chunk_id, vec![1, 2]);
    assert_eq!(co.offset_idx, vec![2, 1]);
    assert!(ch.get_chunk_idx(&[8, 0]).is_none());
    assert!(ch.get_chunk_idx(&[1]).is_none());
}

fn chunk(values: Vec<i32>) -> VecNdArray<i32, RowMajor> {
    VecNdArray::new(values, RowMajor::new(&[2, 2])).unwrap()
}

#[test]
fn chunked_lookup_goes_to_the_right_chunk() {
    let chunker = RegularChunker::new(&[2, 2], &[2, 1]).unwrap();
    let chunks = RegularChunks::new(chunker.clone(), vec![chunk(vec![0, 1, 2, 3]), chunk(vec![10, 11, 12, 13])]).unwrap();
    let idx = ChunkedIndexer::new(chunks);
    assert_eq!(idx.extents(), &[4, 2]);
    assert_eq!(idx.get(&[3, 1]), Some(13));
    assert_eq!(idx.get(&[1, 0]), Some(2));
    assert_eq!(idx.get(&[4, 0]), None);
    assert_eq!(idx.get(&[0, 2]), None);
    assert_eq!(idx.get_unchecked(&[2, 0]), 10);
    let mut buf = vec![None; 3];
    idx.bulk_get_into(&vec![vec![0, 1], vec![3, 0], vec![9, 9]], &mut buf);
    assert_eq!(buf, vec![Some(1), Some(12), None]);
    let mut many = vec![None; 5];
    idx.bulk_get_into(&vec![vec![3, 1], vec![0, 0], vec![2, 1], vec![1, 1], vec![4, 4]], &mut many);
    assert_eq!(many, vec![Some(13), Some(0), Some(11), Some(3), None]);
    let mut cols = vec![None; 3];
    idx.column_get_into(&vec![vec![0, 3, 5], vec![1, 0, 0]], &mut cols);
    assert_eq!(cols, vec![Some(1), Some(12), None]);
    let c = Const::new(idx, -1);
    assert_eq!(c.get(&[-1, 0]), -1);
    assert_eq!(c.get(&[2, 1]), 11);

    assert!(matches!(
        RegularChunks::new(chunker.clone(), vec![chunk(vec![0, 1, 2, 3])]),
        Err(ChunksError::ChunkCount { expected: 2, found: 1 })
    ));
    let odd = VecNdArray::new(vec![0, 1, 2], RowMajor::new(&[3, 1])).unwrap();
    assert!(matches!(
        RegularChunks::new(chunker, vec![chunk(vec![0, 1, 2, 3]), odd]),
        Err(ChunksError::ChunkShape { chunk: 1 })
    ));
}
