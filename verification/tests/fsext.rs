use duw::fsext::block_sizes;
use duw::fsext::cluster_size;
use duw::fsext::cluster_sizes;
use duw::fsext::hardlink_key;
use duw::fsext::is_cloud_backed;
use duw::fsext::is_cloud_tag;
use duw::fsext::mtime;
use duw::fsext::needs_tag;
use duw::fsext::volume_root;
use duw::fsext::Support;

#[test]
fn sizes_on_disk() {
    assert_eq!(block_sizes(10, 8), (10, 4096));
    assert_eq!(cluster_sizes(0, 4096), (0, 0));
    assert_eq!(cluster_sizes(1, 4096), (1, 4096));
    assert_eq!(cluster_sizes(4096, 4096), (4096, 4096));
    assert_eq!(cluster_sizes(4097, 4096), (4097, 8192));
    assert_eq!(cluster_size(4096, 8, 512), 4096);
    assert_eq!(cluster_size(4096, 128, 512), 65536);
    assert_eq!(cluster_size(4096, 0, 512), 4096);
}

#[test]
fn times_and_links() {
    assert_eq!(mtime(Some(7)), 7);
    assert_eq!(mtime(None), 0);
    assert_eq!(hardlink_key(1, 2, 3), None);
    assert_eq!(hardlink_key(2, 2, 3), Some((2, 3)));
}

#[test]
fn volumes() {
    assert_eq!(volume_root("C:\\Users").as_deref(), Some("C:\\"));
    assert_eq!(volume_root("\\\\?\\D:\\x").as_deref(), Some("D:\\"));
    assert_eq!(volume_root("\\\\server\\share"), None);
    assert_eq!(volume_root("é:\\"), None);
    assert_eq!(volume_root("C"), None);
}

#[test]
fn cloud_placeholders() {
    for nibble in 0..16u32 {
        assert!(is_cloud_tag(0x9000_001A + nibble * 0x1000));
    }
    assert!(!is_cloud_tag(0xA000_0003));
    assert!(!is_cloud_tag(0x9001_001A));
    assert!(is_cloud_backed(false, 0x0040_0000, None));
    assert!(is_cloud_backed(false, 0x0004_0000, None));
    assert!(is_cloud_backed(true, 0x0000_1000, None));
    assert!(is_cloud_backed(true, 0x0000_0400, Some(0x9000_101A)));
    assert!(!is_cloud_backed(true, 0x0000_0400, Some(0xA000_0003)));
    assert!(!is_cloud_backed(true, 0x0000_0400, None));
    assert!(!is_cloud_backed(false, 0x0000_0400, Some(0x9000_101A)));
    assert!(needs_tag(true, 0x0000_0400));
    assert!(!needs_tag(false, 0x0000_0400));
    assert!(!needs_tag(true, 0x0000_1400));
}

#[test]
fn platforms_differ() {
    assert!(Support::unix().hardlink_dedup && !Support::unix().cloud_detection);
    assert!(Support::windows().cloud_detection && Support::windows().approximate_alloc);
    assert!(!Support::other().one_file_system);
}
