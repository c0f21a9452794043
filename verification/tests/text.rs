use charstreamer::data::ScalarPos;
use charstreamer::text::ByteToCharMap;

#[test]
fn byte_to_char_map_counts_finished_scalars() {
    let map = ByteToCharMap::from_utf8("aé€b");
    let expected = [0u32, 1, 1, 2, 2, 2, 3, 4];
    for (offset, index) in expected.iter().enumerate() {
        assert_eq!(map.scalar_index_of(offset), Some(ScalarPos(*index)));
    }
    assert_eq!(map.scalar_index_of(8), None);
}
