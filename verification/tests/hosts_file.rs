use fghj::hosts_file::{hosts_path, managed_hosts, sync, BEGIN_MARKER, END_MARKER};

fn texts(list: &[&str]) -> Vec<String> {
    list.iter().map(|s| s.to_string()).collect()
}

#[test]
fn sync_adds_and_removes_the_managed_block_without_touching_other_lines() {
    let before = "127.0.0.1 localhost\n::1 localhost\n";
    let contents = sync(before, &texts(&["aikido.local", "demo.example.com"]));
    assert!(contents.starts_with("127.0.0.1 localhost\n::1 localhost\n"));
    assert!(contents.contains(&format!(
        "{BEGIN_MARKER}\n127.0.0.1 aikido.local\n127.0.0.1 demo.example.com\n{END_MARKER}\n"
    )));

    assert_eq!(sync(&contents, &vec![]), "127.0.0.1 localhost\n::1 localhost\n");
}

#[test]
fn sync_is_idempotent_and_sorts_deduplicates_hosts() {
    let first = sync("", &texts(&["b.local", "a.local", "a.local"]));
    assert_eq!(
        first,
        format!("{BEGIN_MARKER}\n127.0.0.1 a.local\n127.0.0.1 b.local\n{END_MARKER}\n")
    );
    assert_eq!(sync(&first, &texts(&["a.local", "b.local"])), first);
}

#[test]
fn sync_replaces_a_stale_block_in_place() {
    let before =
        format!("before\n{BEGIN_MARKER}\n127.0.0.1 stale.local\n{END_MARKER}\nafter\n");
    assert_eq!(
        sync(&before, &texts(&["fresh.local"])),
        format!("before\nafter\n{BEGIN_MARKER}\n127.0.0.1 fresh.local\n{END_MARKER}\n")
    );
}

#[test]
fn a_block_is_recognised_with_white_space_around_its_markers() {
    let before = format!("a\n  {BEGIN_MARKER} \n127.0.0.1 old\n\t{END_MARKER}\nb");
    assert_eq!(sync(&before, &vec![]), "a\nb\n");
}

#[test]
fn the_hosts_file_is_where_the_system_has_it() {
    assert_eq!(hosts_path(), "/etc/hosts");
}

#[test]
fn the_hosts_that_were_synced_are_read_back() {
    let file = sync("127.0.0.1 localhost\n", &texts(&["b.local", "a.local"]));
    assert_eq!(managed_hosts(&file), vec!["a.local", "b.local"]);
    assert!(managed_hosts("127.0.0.1 localhost\n").is_empty());
    let odd = format!("{BEGIN_MARKER}\n::1 c.local\n127.0.0.1 d.local\n");
    assert_eq!(managed_hosts(&odd), vec!["d.local"]);
}

#[test]
fn a_host_that_ends_in_a_carriage_return_leaves_the_file_as_it_was() {
    let before = "127.0.0.1 localhost\n";
    let hosts = texts(&["b.local\r", "a.local"]);
    let file = sync(before, &hosts);
    assert_eq!(sync(&file, &hosts), file);
    assert_eq!(managed_hosts(&file), vec!["a.local", "b.local"]);
    assert_eq!(sync(&file, &vec![]), before);
}

#[test]
fn the_file_stays_in_front_of_the_block() {
    let before = "# mine\n\n127.0.0.1 localhost\n";
    let file = sync(before, &texts(&["b.local", "a.local", "b.local"]));
    assert_eq!(
        file,
        format!("{before}{BEGIN_MARKER}\n127.0.0.1 a.local\n127.0.0.1 b.local\n{END_MARKER}\n")
    );
    assert_eq!(sync(&file, &texts(&["a.local", "b.local"])), file);
    assert_eq!(sync(&file, &vec![]), before);
}
