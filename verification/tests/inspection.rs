use sher_pe::container::{ContainerInfo, ContainerRuntime};
use sher_pe::files::{FileKind, OpenFile};
use sher_pe::inspection::{container_summary, file_lines};

fn file(fd: i32) -> OpenFile {
    OpenFile { fd, path: format!("/tmp/f{fd}"), kind: FileKind::Regular }
}

#[test]
fn an_unnamed_container_shows_the_first_twelve_characters_of_its_id() {
    let c = ContainerInfo {
        runtime: ContainerRuntime::Docker,
        id: "0123456789abcdef0123".to_string(),
        name: None,
        image: Some("nginx:1".to_string()),
        status: None,
    };
    assert_eq!(container_summary(&c), "Docker 0123456789ab (image: nginx:1, status: unknown)");
}

#[test]
fn a_named_container_shows_its_name() {
    let c = ContainerInfo {
        runtime: ContainerRuntime::Podman,
        id: "abc".to_string(),
        name: Some("web".to_string()),
        image: None,
        status: Some("running".to_string()),
    };
    assert_eq!(container_summary(&c), "Podman web (image: unknown, status: running)");
}

#[test]
fn a_short_file_list_is_shown_whole_with_aligned_descriptors() {
    let files = vec![file(3), OpenFile { fd: 12345, path: "socket:[9]".to_string(), kind: FileKind::Socket }];
    assert_eq!(file_lines(&files), vec!["  fd    3  Regular  /tmp/f3", "  fd 12345  Socket  socket:[9]"]);
}

#[test]
fn a_long_file_list_shows_twenty_then_counts_the_rest() {
    let files: Vec<OpenFile> = (0..25).map(file).collect();
    let lines = file_lines(&files);
    assert_eq!(lines.len(), 21);
    assert_eq!(lines[19], "  fd   19  Regular  /tmp/f19");
    assert_eq!(lines[20], "  ... and 5 more");
}

#[test]
fn an_unnamed_container_id_is_cut_at_twelve_bytes() {
    let c = ContainerInfo {
        runtime: ContainerRuntime::Containerd,
        id: "é".repeat(13),
        name: None,
        image: None,
        status: None,
    };
    assert_eq!(container_summary(&c), format!("Containerd {} (image: unknown, status: unknown)", "é".repeat(6)));
    let c = ContainerInfo { id: "abcdefghijk€x".to_string(), ..c };
    assert_eq!(container_summary(&c), "Containerd abcdefghijk (image: unknown, status: unknown)");
    let c = ContainerInfo { id: "abc123".to_string(), ..c };
    assert_eq!(container_summary(&c), "Containerd abc123 (image: unknown, status: unknown)");
}
