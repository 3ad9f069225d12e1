use kmoddep::error::Error;
use kmoddep::modinfo::{lsmod, parse_module_line};
use kmoddep::text::to_chars;

#[test]
fn live_table_parsing() {
    let m = parse_module_line(&to_chars("sunrpc 69632 2 nfsd,lockd, 0 0xffffffffc0a12000")).unwrap();
    assert_eq!(m.name, "sunrpc");
    assert_eq!(m.mem_size, 69632);
    assert_eq!(m.instances, 2);
    assert_eq!(m.dependencies, vec!["nfsd".to_string(), "lockd".to_string()]);
    assert_eq!(m.mem_offset, 0xffffffffc0a12000);

    let m = parse_module_line(&to_chars("ext4 761856 1 - 0 0xffffffffc0b00000")).unwrap();
    assert_eq!(m.name, "ext4");
    assert_eq!(m.mem_size, 761856);
    assert_eq!(m.instances, 1);
    assert!(m.dependencies.is_empty());
    assert_eq!(m.mem_offset, 0xffffffffc0b00000);
}

#[test]
fn table_is_read_line_by_line_in_order() {
    let table = "nfsd 1 3 - Live 0x0000000000000000\n\
                 sunrpc 69632 2 nfsd,lockd, Live 0xffffffffc0a12000\r\n\
                 ext4 761856 1 - Live 0xffffffffc0b00000";
    let mods = lsmod(table).unwrap();
    assert_eq!(mods.len(), 3);
    assert_eq!(mods[0].name, "nfsd");
    assert_eq!(mods[0].mem_offset, 0);
    assert_eq!(mods[1].name, "sunrpc");
    assert_eq!(mods[1].dependencies.len(), 2);
    assert_eq!(mods[2].name, "ext4");
    assert_eq!(mods[2].instances, 1);
}

#[test]
fn empty_table_holds_no_module() {
    assert!(lsmod("").unwrap().is_empty());
}

#[test]
fn one_malformed_line_fails_the_whole_table() {
    let good = "ext4 761856 1 - Live 0xffffffffc0b00000\n";
    let bad = [
        "ext4 761856 1 - Live\n",
        "ext4 761856 1 - Live 0xffffffffc0b00000 (OE)\n",
        "ext4  761856 1 - Live 0xffffffffc0b00000\n",
        "ext4 761856 1 - Live 0xffffffffc0b00000 \n",
        "\n",
        "ext4 size 1 - Live 0xffffffffc0b00000\n",
        "ext4 -5 1 - Live 0xffffffffc0b00000\n",
        "ext4 761856 256 - Live 0xffffffffc0b00000\n",
        "ext4 761856 one - Live 0xffffffffc0b00000\n",
        "ext4 761856 1 nfsd Live 0xffffffffc0b00000\n",
        "ext4 761856 1 -- Live 0xffffffffc0b00000\n",
        "ext4 761856 1  Live 0xffffffffc0b00000\n",
        "ext4 761856 1 - Live ffffffffc0b00000\n",
        "ext4 761856 1 - Live 0Xffffffffc0b00000\n",
        "ext4 761856 1 - Live 0x\n",
        "ext4 761856 1 - Live 0xg\n",
        "ext4 761856 1 - Live 0x10000000000000000\n",
        "ext4 99999999999999999999999 1 - Live 0x0\n",
    ];
    for b in bad {
        assert!(parse_module_line(&to_chars(b.trim_end_matches('\n'))).is_none(), "{:?}", b);
        assert_eq!(lsmod(b).err(), Some(Error::LiveTableMalformed), "{:?}", b);
        assert_eq!(lsmod(&format!("{}{}", good, b)).err(), Some(Error::LiveTableMalformed));
        assert_eq!(lsmod(&format!("{}{}", b, good)).err(), Some(Error::LiveTableMalformed));
    }
}

#[test]
fn fields_are_read_as_std_reads_them() {
    let m = parse_module_line(&to_chars("m +12 +7 a, x 0x+1F")).unwrap();
    assert_eq!(m.mem_size, "+12".parse::<usize>().unwrap());
    assert_eq!(m.instances, "+7".parse::<u8>().unwrap());
    assert_eq!(m.mem_offset, usize::from_str_radix("+1F", 16).unwrap());
    assert_eq!(m.dependencies, vec!["a".to_string()]);
    let m = parse_module_line(&to_chars("m 0 255 , x 0x0")).unwrap();
    assert_eq!(m.instances, 255);
    assert_eq!(m.dependencies, vec!["".to_string()]);
    let m = parse_module_line(&to_chars(" 0 0 a,,b, x 0xffffffffffffffff")).unwrap();
    assert_eq!(m.name, "");
    assert_eq!(m.mem_offset, usize::MAX);
    assert_eq!(m.dependencies, vec!["a".to_string(), "".to_string(), "b".to_string()]);
}

#[test]
fn error_messages_name_the_failure() {
    assert_eq!(Error::LiveTableMalformed.message(), "live module table is malformed");
    assert_eq!(Error::DescriptorUnreadable.message(), "module descriptor is unreadable");
    assert_eq!(Error::UnknownModule("some/mod".to_string()).message(), "unknown module: some/mod");
}
