use mudup::libs::{is_os_runtime_library, listing_mentions, required_libraries};

#[test]
fn runtime_libraries_are_recognized() {
    assert!(is_os_runtime_library("libc.so.6"));
    assert!(is_os_runtime_library("libm.so.6"));
    assert!(is_os_runtime_library("ld-linux-x86-64.so.2"));
    assert!(is_os_runtime_library("ld-musl-x86_64.so.1"));
    assert!(!is_os_runtime_library("libssl.so.3"));
    assert!(!is_os_runtime_library("xlibc.so"));
}

#[test]
fn lib_list_names_required_libraries() {
    let text = "# comment\n\n  libssl.so.3 => /usr/lib/libssl.so.3\nlibc.so.6\n\tlibz.so.1\r\n   # x\nlibm.so.6 extra\nlibcrypto.so.3";
    assert_eq!(
        required_libraries(text),
        vec!["libssl.so.3", "libz.so.1", "libcrypto.so.3"]
    );
    assert!(required_libraries("").is_empty());
}

#[test]
fn ldconfig_listing_search() {
    let listing = "\tlibssl.so.3 (libc6,x86-64) => /lib/x86_64-linux-gnu/libssl.so.3\n";
    assert!(listing_mentions(listing, "libssl.so.3"));
    assert!(!listing_mentions(listing, "libz.so.1"));
    assert!(listing_mentions(listing, ""));
}
