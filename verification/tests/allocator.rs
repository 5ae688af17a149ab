use ssh_access::ids::LabelConfig;
use ssh_access::labels;
use ssh_access::manager::SshAccessManager;

fn manager() -> SshAccessManager {
    SshAccessManager::new(LabelConfig::standard())
}

#[test]
fn derive_label_known_value() {
    // "db1": ((0 * 31 + 100) * 31 + 98) * 31 + 49 = 99187; 2000 + 99187 % 1000.
    let m = manager();
    assert_eq!(m.hash_hostname("db1"), 2187);
}

#[test]
fn derive_label_single_byte() {
    let m = manager();
    assert_eq!(m.hash_hostname("a"), 2097);
}

#[test]
fn derive_label_collision_pair() {
    // "B3" hashes to 66 * 31 + 51 = 2097, landing on the same slot as "a".
    let m = manager();
    assert_eq!(m.hash_hostname("B3"), m.hash_hostname("a"));
}

#[test]
fn derive_label_deterministic_and_in_range() {
    let m = manager();
    for host in ["db1", "web.example.com", "", "x", "a-very-long-host-name.internal"] {
        let l1 = m.hash_hostname(host);
        let l2 = m.hash_hostname(host);
        assert_eq!(l1, l2);
        assert!((2000..3000).contains(&l1));
    }
}

#[test]
fn derive_label_bytes_matches_method() {
    let m = manager();
    let direct = labels::derive_label_bytes(&b"db1".to_vec());
    assert_eq!(direct, m.hash_hostname("db1"));
}

#[test]
fn derive_label_handles_multibyte_names() {
    // The hash runs over the UTF-8 bytes, so names beyond ASCII get a
    // stable label too.
    let m = manager();
    let l1 = m.hash_hostname("höst.example");
    let l2 = m.hash_hostname("höst.example");
    assert_eq!(l1, l2);
    assert!((2000..3000).contains(&l1));
    assert_ne!(m.hash_hostname("höst"), m.hash_hostname("host"));
}

#[test]
fn empty_name_hashes_to_base_slot() {
    let m = manager();
    assert_eq!(m.hash_hostname(""), 2000);
}
