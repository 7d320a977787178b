use dag::bytes::{bytes_eq, copy_names};
use dag::fsinfo::{get_type, needs_eden_probe, EXT4_SUPER_MAGIC, FUSE_SUPER_MAGIC};
use dag::stats::StepStats;

#[test]
fn step_stats_add() {
    let a = StepStats {
        error_count: 1,
        num_direct: 2,
        num_direct_new: 3,
        num_expanded_new: 4,
        visited_of_type: 10,
    };
    let b = StepStats {
        error_count: 5,
        num_direct: 6,
        num_direct_new: 7,
        num_expanded_new: 8,
        visited_of_type: 9,
    };
    let c = a.add(b);
    assert_eq!(
        c,
        StepStats {
            error_count: 6,
            num_direct: 8,
            num_direct_new: 10,
            num_expanded_new: 12,
            visited_of_type: 10,
        }
    );
    assert_eq!(StepStats::default().add(b), b);
}

#[test]
fn file_system_names() {
    assert_eq!(get_type(EXT4_SUPER_MAGIC, false), "ext4");
    assert_eq!(get_type(0x9123683e, false), "btrfs");
    assert_eq!(get_type(0x01021994, true), "tmpfs");
    assert_eq!(get_type(0x138f, false), "minix");
    assert_eq!(get_type(FUSE_SUPER_MAGIC, true), "edenfs");
    assert_eq!(get_type(FUSE_SUPER_MAGIC, false), "fuse");
    assert_eq!(get_type(12345, false), "unknown");
    assert!(needs_eden_probe(FUSE_SUPER_MAGIC));
    assert!(!needs_eden_probe(EXT4_SUPER_MAGIC));
}

#[test]
fn byte_helpers() {
    assert!(bytes_eq(b"abc", b"abc"));
    assert!(!bytes_eq(b"abc", b"abd"));
    assert!(!bytes_eq(b"ab", b"abc"));
    let names = vec![b"x".to_vec(), b"yz".to_vec()];
    assert_eq!(copy_names(&names), names);
}
