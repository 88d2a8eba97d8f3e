use edgesearch::bst::{BstChunks, PackedEntriesWithBSTLookup};
use edgesearch::direct::{ChunksWithDirectLookup, PackedEntriesWithDirectLookup};
use edgesearch::keys::{ChunkEntryKey, ChunkStrKey, ChunkU32Key, PackedEntryKey, PackedStrKey, PackedU32Key};
use edgesearch::partition::partition_terms;

fn le(x: i64) -> [u8; 4] {
    (x as i32).to_le_bytes()
}

/// Binary search of a little-endian tree chunk with string keys.
fn search(chunk: &[u8], root: u32, key: &[u8]) -> Option<Vec<u8>> {
    let mut pos = root as i64;
    while pos >= 0 {
        let p = pos as usize;
        let klen = chunk[p] as usize;
        let k = &chunk[p + 1..p + 1 + klen];
        let f = p + 1 + klen;
        let left = i32::from_le_bytes(chunk[f..f + 4].try_into().unwrap()) as i64;
        let right = i32::from_le_bytes(chunk[f + 4..f + 8].try_into().unwrap()) as i64;
        let vlen = u32::from_le_bytes(chunk[f + 8..f + 12].try_into().unwrap()) as usize;
        if key == k {
            return Some(chunk[f + 12..f + 12 + vlen].to_vec());
        }
        pos = if key < k { left } else { right };
    }
    None
}

fn root_of(lookup: &str, id: usize) -> u32 {
    let marker = format!("{{.id = {}, .mid_pos = ", id);
    let start = lookup.find(&marker).unwrap() + marker.len();
    let end = start + lookup[start..].find(',').unwrap();
    lookup[start..end].parse().unwrap()
}

#[test]
fn str_key_bytes_and_label() {
    let k = ChunkStrKey::new(b"a\"b\nc");
    assert_eq!(k.bytes(), &[5, b'a', b'"', b'b', b'\n', b'c']);
    assert_eq!(k.c(), br#"{.strval = {.val = "a\"b\nc", .len = 5}}"#);
}

#[test]
fn u32_key_bytes_and_label() {
    let k = ChunkU32Key::new(258);
    assert_eq!(k.bytes(), &[2, 1, 0, 0]);
    assert_eq!(k.c(), b"{.intval = 258}");
    let p = PackedU32Key::new(258);
    assert_eq!(p.bytes(), &[0, 0, 1, 2]);
    assert_eq!(p.js(), b"258");
    let s = PackedStrKey::new(b"x\"y");
    assert_eq!(s.bytes(), &[3, b'x', b'"', b'y']);
    assert_eq!(s.js(), br#""x\"y""#);
}

#[test]
fn single_entry_chunk_layout() {
    let mut b: BstChunks<ChunkStrKey> = BstChunks::new(1000);
    b.insert(ChunkStrKey::new(b"a"), vec![9]);
    let (lookup, chunks) = b.serialise();
    let mut expected = vec![1, b'a'];
    expected.extend_from_slice(&le(-1));
    expected.extend_from_slice(&le(-1));
    expected.extend_from_slice(&[1, 0, 0, 0, 9]);
    assert_eq!(chunks, vec![expected]);
    assert_eq!(
        String::from_utf8(lookup).unwrap(),
        r#"{.id = 0, .mid_pos = 0, .first_key = {.strval = {.val = "a", .len = 1}}},"#
    );
}

#[test]
fn two_entry_chunk_puts_lower_key_first() {
    let mut b: BstChunks<ChunkStrKey> = BstChunks::new(1000);
    b.insert(ChunkStrKey::new(b"a"), vec![1]);
    b.insert(ChunkStrKey::new(b"b"), vec![2]);
    let (lookup, chunks) = b.serialise();
    let c = &chunks[0];
    assert_eq!(c.len(), 30);
    assert_eq!(&c[15..17], &[1, b'b']);
    assert_eq!(&c[17..21], &le(0));
    assert_eq!(&c[21..25], &le(-1));
    assert_eq!(root_of(&String::from_utf8(lookup).unwrap(), 0), 15);
}

#[test]
fn three_keys_with_two_entry_budget() {
    // Each entry costs 2 + 12 + 1 bytes; the bound holds exactly two.
    let mut b: BstChunks<ChunkStrKey> = BstChunks::new(30);
    for k in [b"a", b"b", b"c"] {
        b.insert(ChunkStrKey::new(k), vec![7]);
    }
    assert_eq!(b.chunk_count(), 2);
    let (lookup, chunks) = b.serialise();
    assert_eq!(chunks[0].len(), 30);
    assert_eq!(chunks[1].len(), 15);
    let lookup = String::from_utf8(lookup).unwrap();
    assert!(lookup.contains(r#"{.id = 1, .mid_pos = 0, .first_key = {.strval = {.val = "c", .len = 1}}},"#));
}

#[test]
fn oversize_entry_gets_its_own_chunk() {
    let mut b: BstChunks<ChunkStrKey> = BstChunks::new(20);
    b.insert(ChunkStrKey::new(b"a"), vec![1]);
    b.insert(ChunkStrKey::new(b"b"), vec![0; 40]);
    b.insert(ChunkStrKey::new(b"c"), vec![1]);
    assert_eq!(b.chunk_count(), 3);
}

#[test]
fn tree_search_finds_every_key() {
    for n in [1usize, 2, 3, 4, 5, 7, 8, 100, 1000] {
        let keys: Vec<Vec<u8>> = (0..n).map(|i| format!("k{:05}", i * 2).into_bytes()).collect();
        let mut b: BstChunks<ChunkStrKey> = BstChunks::new(10_000_000);
        for (i, k) in keys.iter().enumerate() {
            b.insert(ChunkStrKey::new(k), format!("v{}", i).into_bytes());
        }
        assert_eq!(b.chunk_count(), 1);
        let (lookup, chunks) = b.serialise();
        let root = root_of(&String::from_utf8(lookup).unwrap(), 0);
        for (i, k) in keys.iter().enumerate() {
            assert_eq!(search(&chunks[0], root, k), Some(format!("v{}", i).into_bytes()));
            let absent = format!("k{:05}", i * 2 + 1).into_bytes();
            assert_eq!(search(&chunks[0], root, &absent), None);
        }
    }
}

#[test]
fn chunks_stay_within_bound() {
    let mut b: BstChunks<ChunkU32Key> = BstChunks::new(100);
    let mut costs = Vec::new();
    for i in 0..50u32 {
        let len = (i as usize * 7) % 40;
        costs.push(4 + 12 + len);
        b.insert(ChunkU32Key::new(i), vec![0; len]);
    }
    let (_, chunks) = b.serialise();
    assert_eq!(chunks.iter().map(|c| c.len()).sum::<usize>(), costs.iter().sum::<usize>());
    let mut next = 0;
    for (ci, c) in chunks.iter().enumerate() {
        assert!(c.len() <= 100);
        let mut used = 0;
        while used < c.len() {
            used += costs[next];
            next += 1;
        }
        if ci + 1 < chunks.len() {
            assert!(c.len() + costs[next] > 100);
        }
    }
}

#[test]
fn packed_tree_is_big_endian_with_js_lookup() {
    let mut b: PackedEntriesWithBSTLookup<PackedU32Key> = PackedEntriesWithBSTLookup::new(1000);
    b.insert(PackedU32Key::new(1), vec![5]);
    b.insert(PackedU32Key::new(2), vec![6]);
    assert_eq!(b.package_count(), 1);
    let (lookup, packages) = b.serialise();
    assert_eq!(String::from_utf8(lookup).unwrap(), "[1,0,17],");
    let p = &packages[0];
    assert_eq!(&p[0..4], &[0, 0, 0, 1]);
    assert_eq!(&p[4..8], &[255, 255, 255, 255]);
    assert_eq!(&p[12..16], &[0, 0, 0, 1]);
    assert_eq!(&p[21..25], &[0, 0, 0, 0]);
}

#[test]
fn direct_lookup_entries() {
    let mut d = ChunksWithDirectLookup::new(4, 1000);
    assert!(d.insert(&ChunkU32Key::new(1), b"abc"));
    assert!(d.insert(&ChunkU32Key::new(2), b"de"));
    assert!(d.insert(&ChunkU32Key::new(3), b"f"));
    assert_eq!(d.get_chunks(), &vec![b"abc".to_vec(), b"def".to_vec()]);
    assert_eq!(
        String::from_utf8(d.get_raw_lookup().to_vec()).unwrap(),
        "[{.intval = 1},0,0,3],[{.intval = 2},1,0,2],[{.intval = 3},1,2,1],"
    );
}

#[test]
fn rejected_insert_changes_nothing() {
    let mut d = PackedEntriesWithDirectLookup::new(100, 20);
    assert!(d.insert(&PackedU32Key::new(7), b"xyz"));
    assert_eq!(d.get_raw_lookup(), b"[7,0,0,3],");
    let before_lookup = d.get_raw_lookup().to_vec();
    let before_packages = d.get_packages().clone();
    assert!(!d.insert(&PackedU32Key::new(123456), b"value"));
    assert_eq!(d.get_raw_lookup(), &before_lookup[..]);
    assert_eq!(d.get_packages(), &before_packages);
    assert!(d.get_raw_lookup().len() <= 20);
    // A shorter entry still fits.
    assert!(d.insert(&PackedU32Key::new(8), b"q"));
    assert_eq!(d.get_raw_lookup(), b"[7,0,0,3],[8,0,3,1],");
}

#[test]
fn partition_stops_at_first_rejection() {
    let terms = vec![b"a".to_vec(), b"bb".to_vec(), b"c".to_vec(), b"dd".to_vec()];
    let freqs = vec![5usize, 9, 5, 1];
    let values = vec![vec![1u8], vec![2u8], vec![3u8], vec![4u8]];
    // The entry of "bb" takes 44 bytes, the next one ("c") 43.
    let mut popular = ChunksWithDirectLookup::new(100, 86);
    let p = partition_terms(&terms, &freqs, &values, &mut popular);
    assert_eq!(p.order, vec![1, 2, 0, 3]);
    assert_eq!(p.popular_count, 1);
    assert_eq!(p.normal, vec![0, 2, 3]);
    assert_eq!(popular.get_chunks(), &vec![vec![2u8]]);
    let mut all: Vec<usize> = p.order[..p.popular_count].to_vec();
    all.extend(p.normal.iter());
    all.sort();
    assert_eq!(all, vec![0, 1, 2, 3]);
}

#[test]
fn partition_with_room_for_all() {
    let terms = vec![b"x".to_vec(), b"y".to_vec()];
    let freqs = vec![1usize, 1];
    let values = vec![vec![1u8], vec![2u8]];
    let mut popular = ChunksWithDirectLookup::new(100, 10_000);
    let p = partition_terms(&terms, &freqs, &values, &mut popular);
    assert_eq!(p.order, vec![1, 0]);
    assert_eq!(p.popular_count, 2);
    assert!(p.normal.is_empty());
}
