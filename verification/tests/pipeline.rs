use ssh_access::graph::Effect;
use ssh_access::ids::{AccessError, ChanOp, KeyBundle, LabelConfig};
use ssh_access::manager::{extract_member_id, SshAccessManager};

fn manager() -> SshAccessManager {
    let mut m = SshAccessManager::new(LabelConfig::standard());
    m.initialize();
    m
}

fn keys(name: &str) -> KeyBundle {
    let mut ident = b"sig-".to_vec();
    ident.extend_from_slice(name.as_bytes());
    let mut ssh = b"ssh-ed25519 AAAA ".to_vec();
    ssh.extend_from_slice(name.as_bytes());
    KeyBundle { ident_pk: ident, ssh_pk: ssh }
}

fn read_line(name: &str) -> Vec<u8> {
    let mut line = keys(name).ssh_pk;
    line.extend_from_slice(b" read\n");
    line
}

fn admin_line(name: &str) -> Vec<u8> {
    let mut line = keys(name).ssh_pk;
    line.extend_from_slice(b" admin\n");
    line
}

#[test]
fn initialize_twice_is_success() {
    let mut m = manager();
    m.initialize();
    m.initialize();
    assert!(m.take_pending_deployments().is_empty());
}

#[test]
fn add_user_returns_fresh_identities() {
    let mut m = manager();
    let a = m.add_ssh_user(keys("alice"), true).unwrap();
    let b = m.add_ssh_user(keys("bob"), false).unwrap();
    assert_ne!(a, b);
    assert!(m.is_member(a));
    assert!(m.is_member(b));
    assert!(m.holds_ssh_role(a));
    assert!(m.holds_ssh_role(b));
    // No implicit host access: onboarding alone deploys nothing.
    assert!(m.take_pending_deployments().is_empty());
}

#[test]
fn grant_renders_exactly_the_granted_user() {
    // A non-admin user granted db1 appears in db1's key file, with
    // read level, and in no other host's file.
    let mut m = manager();
    let u = m.add_ssh_user(keys("user1"), false).unwrap();
    let v = m.add_ssh_user(keys("user2"), false).unwrap();
    m.grant_host_access(u, "db1").unwrap();
    m.grant_host_access(v, "web7").unwrap();
    let arts = m.take_pending_deployments();
    assert_eq!(arts.len(), 2);
    assert_eq!(arts[0].host, b"db1".to_vec());
    assert_eq!(arts[0].content, read_line("user1"));
    assert_eq!(arts[1].host, b"web7".to_vec());
    assert_eq!(arts[1].content, read_line("user2"));
}

#[test]
fn admin_grant_renders_admin_level() {
    let mut m = manager();
    let a = m.add_ssh_user(keys("root1"), true).unwrap();
    m.grant_host_access(a, "db1").unwrap();
    let arts = m.take_pending_deployments();
    assert_eq!(arts.len(), 1);
    assert_eq!(arts[0].content, admin_line("root1"));
}

#[test]
fn key_file_sorted_by_identity() {
    let mut m = manager();
    let a = m.add_ssh_user(keys("first"), false).unwrap();
    let b = m.add_ssh_user(keys("second"), true).unwrap();
    // Grant in the opposite order; the rendering order follows the
    // identities, not the grant order.
    m.grant_host_access(b, "db1").unwrap();
    m.grant_host_access(a, "db1").unwrap();
    let arts = m.take_pending_deployments();
    let last = &arts[arts.len() - 1];
    let mut expected = read_line("first");
    expected.extend_from_slice(&admin_line("second"));
    assert_eq!(last.content, expected);
    assert!(m.has_host_access(a, "db1"));
    assert!(m.has_host_access(b, "db1"));
}

#[test]
fn grant_twice_deploys_at_most_once() {
    // Idempotence: the second identical grant changes no content and
    // emits no further artifact.
    let mut m = manager();
    let u = m.add_ssh_user(keys("user1"), false).unwrap();
    m.grant_host_access(u, "db1").unwrap();
    let first = m.take_pending_deployments();
    assert_eq!(first.len(), 1);
    m.grant_host_access(u, "db1").unwrap();
    let second = m.take_pending_deployments();
    assert!(second.is_empty());
    assert!(m.has_host_access(u, "db1"));
}

#[test]
fn second_user_joins_existing_host_binding() {
    // Granting a second user the same host reuses the binding and
    // merges both keys into one file.
    let mut m = manager();
    let u = m.add_ssh_user(keys("user1"), false).unwrap();
    let v = m.add_ssh_user(keys("user2"), false).unwrap();
    m.grant_host_access(u, "db1").unwrap();
    m.grant_host_access(v, "db1").unwrap();
    let arts = m.take_pending_deployments();
    assert_eq!(arts.len(), 2);
    let mut expected = read_line("user1");
    expected.extend_from_slice(&read_line("user2"));
    assert_eq!(arts[1].content, expected);
    assert!(m.has_host_access(u, "db1"));
    assert!(m.has_host_access(v, "db1"));
}

#[test]
fn grant_collision_is_refused() {
    // "a" and "B3" derive the same label; binding the first then
    // attempting the second must fail with a label collision.
    let mut m = manager();
    let u = m.add_ssh_user(keys("user1"), false).unwrap();
    m.grant_host_access(u, "a").unwrap();
    assert_eq!(m.grant_host_access(u, "B3"), Err(AccessError::LabelCollision));
    // The collision left no partial grant behind.
    assert!(!m.has_host_access(u, "B3"));
}

#[test]
fn grant_unknown_principal_is_refused() {
    let mut m = manager();
    let u = m.add_ssh_user(keys("user1"), false).unwrap();
    m.remove_ssh_user(u).unwrap();
    assert_eq!(m.grant_host_access(u, "db1"), Err(AccessError::MissingIdentity));
}

#[test]
fn revoke_restores_pre_grant_content() {
    // Revocation symmetry: granting then revoking restores the host's
    // authorized set, and the refreshed file shows the pre-grant text.
    let mut m = manager();
    let a = m.add_ssh_user(keys("keeper"), false).unwrap();
    let b = m.add_ssh_user(keys("guest"), false).unwrap();
    m.grant_host_access(a, "db1").unwrap();
    let before = m.take_pending_deployments();
    assert_eq!(before[0].content, read_line("keeper"));
    m.grant_host_access(b, "db1").unwrap();
    m.revoke_host_access(b, "db1").unwrap();
    let after = m.take_pending_deployments();
    // The grant changed the file and the revocation changed it back.
    assert_eq!(after.len(), 2);
    assert_eq!(after[1].content, before[0].content);
    assert_eq!(after[1].version, before[0].version);
    assert!(!m.has_host_access(b, "db1"));
    assert!(m.has_host_access(a, "db1"));
}

#[test]
fn revoke_without_grant_is_noop() {
    let mut m = manager();
    let u = m.add_ssh_user(keys("user1"), false).unwrap();
    let v = m.add_ssh_user(keys("user2"), false).unwrap();
    m.grant_host_access(u, "db1").unwrap();
    m.take_pending_deployments();
    // v holds nothing on db1; nothing changes, nothing deploys.
    m.revoke_host_access(v, "db1").unwrap();
    assert!(m.take_pending_deployments().is_empty());
    // A host never bound is a no-op too.
    m.revoke_host_access(u, "nowhere").unwrap();
    assert!(m.take_pending_deployments().is_empty());
}

#[test]
fn remove_user_clears_every_host() {
    // After offboarding, both hosts' refreshed files no longer list
    // the user, and the identity is rejected thereafter.
    let mut m = manager();
    let u = m.add_ssh_user(keys("leaver"), false).unwrap();
    m.grant_host_access(u, "db1").unwrap();
    m.grant_host_access(u, "db2").unwrap();
    m.take_pending_deployments();
    m.remove_ssh_user(u).unwrap();
    assert!(!m.is_member(u));
    let arts = m.take_pending_deployments();
    assert_eq!(arts.len(), 2);
    assert_eq!(arts[0].host, b"db1".to_vec());
    assert_eq!(arts[0].content, Vec::<u8>::new());
    assert_eq!(arts[1].host, b"db2".to_vec());
    assert_eq!(arts[1].content, Vec::<u8>::new());
    // An emptied key file is versioned by the hash of empty content.
    assert_eq!(arts[0].version, 0xcbf2_9ce4_8422_2325);
    assert_eq!(m.grant_host_access(u, "db1"), Err(AccessError::MissingIdentity));
}

#[test]
fn remove_unknown_user_is_clean() {
    let mut m = manager();
    let u = m.add_ssh_user(keys("user1"), false).unwrap();
    m.remove_ssh_user(u).unwrap();
    // Offboarding again finds every step already done.
    m.remove_ssh_user(u).unwrap();
    assert!(!m.is_member(u));
}

#[test]
fn partial_removal_blocks_new_grants() {
    // Partial failure: the revocation steps succeeded but the final
    // membership removal did not. The principal still appears as a
    // member, yet new host grants are refused; retrying the removal
    // completes cleanly.
    let mut m = manager();
    let u = m.add_ssh_user(keys("halfgone"), false).unwrap();
    m.grant_host_access(u, "db1").unwrap();
    m.take_pending_deployments();
    let plan = m.plan_remove_user(u);
    assert_eq!(plan.len(), 4);
    for step in plan.iter().take(3) {
        m.apply_action(step);
    }
    assert!(m.is_member(u));
    assert!(!m.holds_ssh_role(u));
    assert_eq!(m.grant_host_access(u, "db2"), Err(AccessError::NotAuthorized));
    // The retry completes and the refreshed file drops the principal.
    m.remove_ssh_user(u).unwrap();
    assert!(!m.is_member(u));
    let arts = m.take_pending_deployments();
    assert_eq!(arts.len(), 1);
    assert_eq!(arts[0].host, b"db1".to_vec());
    assert_eq!(arts[0].content, Vec::<u8>::new());
}

#[test]
fn sync_without_effects_deploys_nothing() {
    // Sync idempotence: a second tick with no intervening mutations
    // observes nothing and must not trigger any deployment.
    let mut m = manager();
    let u = m.add_ssh_user(keys("user1"), false).unwrap();
    m.grant_host_access(u, "db1").unwrap();
    m.take_pending_deployments();
    let report = m.sync_and_update_keys(&Vec::new());
    assert_eq!(report.applied, 0);
    assert!(!report.full_refresh);
    assert!(m.take_pending_deployments().is_empty());
    assert!(m.has_host_access(u, "db1"));
}

#[test]
fn sync_label_effect_refreshes_only_its_host() {
    let mut m = manager();
    let u = m.add_ssh_user(keys("user1"), false).unwrap();
    m.grant_host_access(u, "db1").unwrap();
    m.grant_host_access(u, "db2").unwrap();
    m.take_pending_deployments();
    let label = m.hash_hostname("db1");
    let observed = vec![Effect::LabelRevoked { who: u, label }];
    let report = m.sync_and_update_keys(&observed);
    assert_eq!(report.applied, 1);
    assert!(!report.full_refresh);
    let arts = m.take_pending_deployments();
    assert_eq!(arts.len(), 1);
    assert_eq!(arts[0].host, b"db1".to_vec());
    assert_eq!(arts[0].content, Vec::<u8>::new());
    assert!(m.has_host_access(u, "db2"));
}

#[test]
fn sync_member_effect_falls_back_to_full_refresh() {
    let mut m = manager();
    let u = m.add_ssh_user(keys("user1"), false).unwrap();
    m.grant_host_access(u, "db1").unwrap();
    m.grant_host_access(u, "db2").unwrap();
    m.take_pending_deployments();
    let observed = vec![Effect::MemberRemoved { who: u }];
    let report = m.sync_and_update_keys(&observed);
    assert_eq!(report.applied, 1);
    assert!(report.full_refresh);
    let arts = m.take_pending_deployments();
    assert_eq!(arts.len(), 2);
    assert!(!m.is_member(u));
}

#[test]
fn sync_remote_grant_appears_in_key_file() {
    // A grant observed from a peer, not issued locally, lands in the
    // host's key file all the same: authorization is a function of
    // the observed state.
    let mut m = manager();
    let u = m.add_ssh_user(keys("local"), false).unwrap();
    let v = m.add_ssh_user(keys("remote"), false).unwrap();
    m.grant_host_access(u, "db1").unwrap();
    m.take_pending_deployments();
    let label = m.hash_hostname("db1");
    let observed = vec![Effect::LabelAssigned { who: v, label, op: ChanOp::Open }];
    m.sync_and_update_keys(&observed);
    let arts = m.take_pending_deployments();
    assert_eq!(arts.len(), 1);
    let mut expected = read_line("local");
    expected.extend_from_slice(&read_line("remote"));
    assert_eq!(arts[0].content, expected);
}

#[test]
fn deploy_failure_marks_host_for_retry() {
    let mut m = manager();
    let u = m.add_ssh_user(keys("user1"), false).unwrap();
    m.grant_host_access(u, "db1").unwrap();
    let first = m.take_pending_deployments();
    // The sink refused the artifact: forget the deployed version, so
    // the next refresh hands it out again.
    m.mark_deploy_failed("db1");
    m.update_host_keys("db1");
    let retry = m.take_pending_deployments();
    assert_eq!(retry.len(), 1);
    assert_eq!(retry[0].content, first[0].content);
    assert_eq!(retry[0].version, first[0].version);
}

#[test]
fn refresh_unbound_host_changes_nothing() {
    let mut m = manager();
    assert!(!m.update_host_keys("unbound"));
    assert_eq!(m.update_authorized_keys(), 0);
    assert!(m.take_pending_deployments().is_empty());
}

#[test]
fn extract_member_id_requires_an_addition_effect() {
    assert_eq!(extract_member_id(&Vec::new()), Err(AccessError::MissingIdentity));
    let mut m = manager();
    let u = m.add_ssh_user(keys("user1"), false).unwrap();
    let effects = vec![Effect::MemberRemoved { who: u }];
    assert_eq!(extract_member_id(&effects), Err(AccessError::MissingIdentity));
    let effects = vec![
        Effect::MemberRemoved { who: u },
        Effect::MemberAdded { who: u, keys: keys("user1") },
    ];
    assert_eq!(extract_member_id(&effects), Ok(u));
}
