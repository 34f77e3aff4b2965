use chunked_tiles::utils::{Owm, Rop};

#[test]
fn rop_from_ref_reads_borrowed() {
    let v = 5u64;
    let r = Rop::from_ref(&v);
    assert_eq!(*r.get(), 5);
}

#[test]
fn rop_from_owned_reads_owned() {
    let r: Rop<'_, String> = Rop::from_owned(String::from("tile"));
    assert_eq!(r.get().as_str(), "tile");
}

#[test]
fn owm_reads_either() {
    let mut v = 3u64;
    let a: Owm<'_, u64> = Owm::Owned(4);
    assert_eq!(*a.get(), 4);
    let b = Owm::Borrowed(&mut v);
    assert_eq!(*b.get(), 3);
}

#[test]
fn owm_writes_through_borrow() {
    let mut v = 3u64;
    {
        let mut b = Owm::Borrowed(&mut v);
        *b.get_mut() = 8;
        assert_eq!(*b.get(), 8);
    }
    assert_eq!(v, 8);
    let mut a: Owm<'_, u64> = Owm::Owned(1);
    *a.get_mut() += 1;
    assert_eq!(*a.get(), 2);
}
