use starframe::mesh::DynamicMeshBuffers;

/// Indices of each batch are counted from the first vertex of that batch.
#[test]
fn extend_shifts_indices_past_earlier_vertices() {
    let mut bufs: DynamicMeshBuffers<u8> = DynamicMeshBuffers::new();
    bufs.extend(vec![10, 11, 12], vec![0, 1, 2]);
    bufs.extend(vec![20, 21], vec![1, 0, 1]);
    assert_eq!(bufs.vertices, vec![10, 11, 12, 20, 21]);
    assert_eq!(bufs.indices, vec![0, 1, 2, 4, 3, 4]);

    bufs.clear();
    assert!(bufs.vertices.is_empty() && bufs.indices.is_empty());
    bufs.extend(vec![30], vec![0]);
    assert_eq!(bufs.indices, vec![0]);
}

/// Padding makes the index buffer even and remembers its length without padding.
#[test]
fn pad_indices_to_even_length() {
    let mut bufs: DynamicMeshBuffers<u8> = DynamicMeshBuffers::new();
    bufs.extend(vec![1, 2, 3], vec![0, 1, 2]);
    bufs.pad_indices();
    assert_eq!(bufs.indices, vec![0, 1, 2, 0]);
    assert_eq!(bufs.index_range(), (0, 3));
    bufs.pad_indices();
    assert_eq!(bufs.indices, vec![0, 1, 2, 0]);
    assert_eq!(bufs.index_range(), (0, 4));
}
