use burp::backup::Backup;
use burp::client::{parse_client_arg, LocalClient};

#[test]
fn parse_client_arg_splits_at_first_eq() {
    let cfg = parse_client_arg("web=http://example/store").unwrap();
    assert_eq!(cfg.name, "web");
    assert_eq!(cfg.storage_url, "http://example/store");

    let cfg = parse_client_arg("a=b=c").unwrap();
    assert_eq!(cfg.name, "a");
    assert_eq!(cfg.storage_url, "b=c");
}

#[test]
fn parse_client_arg_needs_eq() {
    assert!(parse_client_arg("justaname").is_err());
}

#[test]
fn find_backups_skips_unparseable_names() {
    let mut client = LocalClient::new("web");
    let names = vec![
        "0000001 2021-04-11 00:00:00".to_string(),
        "lost+found".to_string(),
        "0000002 2021-04-12 00:00:00".to_string(),
    ];
    client.find_backups("/store/web", &names, true);
    let mut ids: Vec<u64> = client.get_backups().iter().map(|b| b.id).collect();
    ids.sort();
    assert_eq!(ids, vec![1, 2]);
}

#[test]
fn insert_backup_replaces_same_id() {
    let mut client = LocalClient::new("web");
    client
        .insert_backup(Backup::new("/store", "0000001 old", true).unwrap());
    client
        .insert_backup(Backup::new("/store", "0000001 new", true).unwrap());
    assert_eq!(client.get_backups().len(), 1);
    assert_eq!(client.get_backups()[0].timestamp, "new");
}

#[test]
fn base_selection_takes_newest_older_snapshot() {
    let mut client = LocalClient::new("web");
    for name in ["0000001 a", "0000005 b", "0000003 c"] {
        client.insert_backup(Backup::new("/store", name, true).unwrap());
    }
    let i = client.find_base_for(5).unwrap();
    assert_eq!(client.get_backups()[i].id, 3);
    let j = client.find_base_for(9).unwrap();
    assert_eq!(client.get_backups()[j].id, 5);
    assert!(client.find_base_for(1).is_none());
}

#[test]
fn orphaned_backups_are_those_missing_at_source() {
    let mut source = LocalClient::new("web");
    source.insert_backup(Backup::new("/store", "0000001 a", true).unwrap());
    let mut dest = LocalClient::new("cloned_web");
    dest.insert_backup(Backup::new("/dest", "0000001 a", true).unwrap());
    dest.insert_backup(Backup::new("/dest", "0000002 b", true).unwrap());
    let orphans = source.orphaned_backups(&dest);
    assert_eq!(orphans, vec![2]);
}
