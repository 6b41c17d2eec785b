use flypro::assets::package_map::{PackageMap, PackageMapError};

#[test]
fn parses_bundled_package_routes() {
    let map = PackageMap::parse(
        "; packages\n[PKG]\n8=0100,SPI,ISP-M25\n32=1008,SOIC8-150,SF-SOP8-150A\n",
    )
    .expect("bundled package map");
    let soic = map.get(32).expect("SOIC8 route");
    assert_eq!(soic.package_type(), 0x1008);
    assert_eq!(soic.package_name(), "SOIC8-150");
    assert_eq!(soic.adapter_name(), "SF-SOP8-150A");

    let isp = map.get(8).expect("SPI ISP route");
    assert_eq!(isp.package_type(), 0x0100);
    assert_eq!(isp.adapter_name(), "ISP-M25");
}

#[test]
fn trims_fields_and_skips_empty_rows() {
    let map = PackageMap::parse(
        "\r\n  ;x=y\r\n 9 = ab , name , adapter , more \r\n10=\r\n+11=+1\r\n255=ffff,\u{a0}last",
    )
    .expect("valid map");

    let keys: Vec<u8> = map.records().iter().map(|record| record.key()).collect();
    assert_eq!(keys, vec![9, 11, 255]);
    let first = map.get(9).expect("route");
    assert_eq!(first.package_type(), 0xab);
    assert_eq!(first.package_name(), "name");
    assert_eq!(first.adapter_name(), "adapter");
    assert_eq!(map.get(11).expect("route").package_name(), "");
    assert_eq!(map.get(255).expect("route").package_name(), "last");
    assert!(map.get(10).is_none());
    assert!(PackageMap::parse("").expect("empty map").records().is_empty());
}

#[test]
fn names_the_row_that_is_refused() {
    assert_eq!(
        PackageMap::parse("1=1\nbroken"),
        Err(PackageMapError::InvalidLine { line: 2 })
    );
    assert_eq!(
        PackageMap::parse("\n\n256=1"),
        Err(PackageMapError::InvalidKey { line: 3 })
    );
    assert_eq!(
        PackageMap::parse("1=10000"),
        Err(PackageMapError::InvalidType { line: 1 })
    );
    assert_eq!(
        PackageMap::parse("1=1\n01=2"),
        Err(PackageMapError::DuplicateKey { key: 1 })
    );
}
