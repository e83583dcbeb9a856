use banker::syscall::map_permission_from_prot;
use banker::syscall::MapPermission;
use banker::syscall::TimeVal;

#[test]
fn micros_split_exactly() {
    let tv = TimeVal::from_micros(3_456_789);
    assert_eq!(tv.sec, 3);
    assert_eq!(tv.usec, 456_789);
}

#[test]
fn micros_split_at_boundaries() {
    let tv = TimeVal::from_micros(0);
    assert_eq!((tv.sec, tv.usec), (0, 0));
    let tv = TimeVal::from_micros(999_999);
    assert_eq!((tv.sec, tv.usec), (0, 999_999));
    let tv = TimeVal::from_micros(1_000_000);
    assert_eq!((tv.sec, tv.usec), (1, 0));
}

#[test]
fn prot_bits_translate() {
    assert_eq!(
        map_permission_from_prot(0),
        Some(MapPermission { readable: false, writable: false, executable: false })
    );
    assert_eq!(
        map_permission_from_prot(1),
        Some(MapPermission { readable: true, writable: false, executable: false })
    );
    assert_eq!(
        map_permission_from_prot(5),
        Some(MapPermission { readable: true, writable: false, executable: true })
    );
    assert_eq!(
        map_permission_from_prot(7),
        Some(MapPermission { readable: true, writable: true, executable: true })
    );
}

#[test]
fn unknown_prot_bits_are_rejected() {
    assert_eq!(map_permission_from_prot(8), None);
    assert_eq!(map_permission_from_prot(9), None);
    assert_eq!(map_permission_from_prot(usize::MAX), None);
}
