use zelkova::bundle::{Bundle, Memory, Scalar};
use zelkova::layout::{Layout, LayoutError};

#[test]
fn bound_slots_strictly_increase() {
    let mut layout = Layout::arrange();
    let mut slots = Vec::new();
    for _ in 0..5 {
        slots.push(layout.bind(Scalar::F32, 4, Memory::Static).unwrap());
    }
    assert_eq!(slots, vec![0, 1, 2, 3, 4]);
    for i in 0..slots.len() {
        for j in (i + 1)..slots.len() {
            assert!(slots[i] < slots[j]);
        }
    }
}

#[test]
fn bind_after_insert_skips_taken_slots() {
    let mut layout = Layout::arrange();
    let b = Bundle::bind_st(Scalar::U32, 2, 7);
    layout.insert(b, 7).unwrap();
    let next = layout.bind(Scalar::U32, 2, Memory::Static).unwrap();
    assert_eq!(next, 8);
}

#[test]
fn insert_twice_at_one_slot_fails_and_keeps_first() {
    let mut layout = Layout::arrange();
    let first = Bundle::bind_st(Scalar::F32, 4, 3);
    let second = Bundle::bind_rt(Scalar::I32, 9, 3);
    let stored = layout.insert(first, 3).unwrap();
    assert_eq!(stored, first);
    assert_eq!(layout.insert(second, 3), Err(LayoutError::Occupied(3)));
    assert_eq!(layout.insert(second, 3), Err(LayoutError::Occupied(3)));
    assert_eq!(layout.get(3), Some(first));
}

#[test]
fn insert_stores_the_handle_as_given() {
    let mut layout = Layout::arrange();
    let b = Bundle::bind_rt(Scalar::F32, 4, 5);
    assert_eq!(layout.insert(b, 5), Ok(b));
    assert_eq!(layout.get(5), Some(b));
}

#[test]
fn insert_refuses_a_mismatched_or_unusable_handle() {
    let mut layout = Layout::arrange();
    let b = Bundle::bind_st(Scalar::F32, 4, 99);
    assert_eq!(layout.insert(b, 5), Err(LayoutError::Mismatch(5)));
    let mut c = Bundle::bind_st(Scalar::F32, 4, 6);
    c.usage = 0x4 | 0x8;
    assert_eq!(layout.insert(c, 6), Err(LayoutError::Usage(6)));
    assert_eq!(layout.get(5), None);
    assert_eq!(layout.get(6), None);
}

#[test]
fn attach_marks_ready() {
    let mut layout = Layout::arrange();
    let slot = layout.bind(Scalar::F32, 4, Memory::Static).unwrap();
    assert!(!layout.get(slot).unwrap().ready());
    layout.attach(slot).unwrap();
    assert!(layout.get(slot).unwrap().ready());
    assert_eq!(layout.attach(40), Err(LayoutError::Unbound(40)));
    layout.recycle();
    assert!(layout.get(slot).is_some());
}

#[test]
fn usage_bits_decide_the_address_space() {
    let st = Bundle::bind_st(Scalar::F32, 4, 0);
    let rt = Bundle::bind_rt(Scalar::F32, 4, 1);
    assert_eq!(st.usage, 0x40 | 0x8);
    assert_eq!(rt.usage, 0x80 | 0x4 | 0x8);
    assert!(st.is_uniform());
    assert!(!st.is_storage());
    assert!(rt.is_storage());
    assert!(!rt.is_uniform());
    assert_eq!(st.typename(), "f32");
    assert_eq!(Scalar::I32.typename(), "i32");
    assert_eq!(Scalar::U32.typename(), "u32");
}

#[test]
fn properties_accessors() {
    let b = Bundle::bind_rt(Scalar::U32, 12, 6);
    assert_eq!(b.props.alias(), Scalar::U32);
    assert_eq!(b.props.binding(), 6);
    assert_eq!(b.props.count(), 12);
    assert_eq!(b.props.memory, Memory::Dynamic);
}
