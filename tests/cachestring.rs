use cachestring::{CacheBuf, CacheString, CapacityError, CAPACITY};

#[test]
fn cachestr_new() {
    let mut c = CacheString::new();
    c.push_str("Hello, sailor!");
    assert_eq!(c, "Hello, sailor!");
}

#[test]
fn cache_str_len() {
    let mut c = CacheString::from("Hello!");
    assert_eq!(c.len(), 6);
    assert_eq!(c.remaining_capacity(), 63 - 6);

    c.clear();
    assert_eq!(c.len(), 0);
    assert!(c.is_empty());
}

#[test]
fn cache_str_push() {
    let mut c = CacheString::from("Hello, world");
    c.push('!');
    assert_eq!(c, "Hello, world!");
}

#[test]
fn cache_str_truncate() {
    let mut c = CacheString::from("Hello, world!");
    assert_eq!(c, "Hello, world!");
    c.truncate(1);
    assert_eq!(c, "H");
}

#[test]
fn from_string() {
    let c = CacheString::from_string(String::from("Hello world!"));
    assert_eq!(c, "Hello world!");
}

#[test]
fn push_str_reads_back_with_length() {
    let mut c = CacheString::new();
    c.push_str("Hello, sailor!");
    assert_eq!(c.as_str(), "Hello, sailor!");
    assert_eq!(c.len(), 14);
}

#[test]
fn lengths_add_up_to_capacity() {
    for s in ["", "a", "Hello!", "héllo wörld", "日本語のテキスト", "😀😀😀"] {
        let c = CacheString::from(s);
        assert_eq!(c.capacity(), 63);
        assert_eq!(c.len() + c.remaining_capacity(), c.capacity());
        assert_eq!(c.len(), s.len());
    }
}

#[test]
fn bytes_are_utf8_and_decode_to_text() {
    let c = CacheString::from("naïve café ✓ 😀");
    let decoded = std::str::from_utf8(c.as_bytes()).unwrap();
    assert_eq!(decoded, c.as_str());
    assert_eq!(c.as_bytes(), "naïve café ✓ 😀".as_bytes());
}

#[test]
fn round_trip_through_text_view() {
    for s in ["", "x", "Hello, world!", "Grüße aus Köln", "παράδειγμα", "🦀 crab"] {
        let c = CacheString::from(s);
        assert_eq!(c.as_str(), s);
    }
}

#[test]
fn truncate_past_end_is_no_op() {
    let mut c = CacheString::from("Hello");
    c.truncate(6);
    assert_eq!(c, "Hello");
    c.truncate(63);
    assert_eq!(c, "Hello");
    assert_eq!(c.len(), 5);
}

#[test]
fn truncate_at_multibyte_boundary() {
    let mut c = CacheString::from("héllo");
    c.truncate(3);
    assert_eq!(c, "hé");
    assert_eq!(c.len(), 3);
}

#[test]
fn push_multibyte_characters() {
    let mut c = CacheString::new();
    c.push('a');
    c.push('é');
    c.push('✓');
    c.push('😀');
    assert_eq!(c, "aé✓😀");
    assert_eq!(c.len(), 1 + 2 + 3 + 4);
}

#[test]
fn push_str_to_exactly_full() {
    let mut c = CacheString::from("0123456789");
    let rest = "x".repeat(53);
    c.push_str(&rest);
    assert_eq!(c.len(), 63);
    assert!(c.is_full());
    assert_eq!(c.remaining_capacity(), 0);
}

#[test]
fn push_char_to_exactly_full() {
    let mut c = CacheString::from("y".repeat(59).as_str());
    c.push('😀');
    assert!(c.is_full());
    assert_eq!(c.len(), 63);
}

#[test]
fn from_sixty_three_bytes_is_full() {
    let s = "z".repeat(63);
    let c = CacheString::from(s.as_str());
    assert!(c.is_full());
    assert_eq!(c.as_str(), s.as_str());
}

#[test]
fn buffer_rejects_sixty_four_bytes() {
    let mut b = CacheBuf::new();
    let bytes = [b'q'; 64];
    assert_eq!(b.try_extend_from_slice(&bytes), Err(CapacityError));
    assert!(b.is_empty());
    assert_eq!(b.len(), 0);
    assert_eq!(b.try_extend_from_slice(&bytes[..63]), Ok(()));
    assert!(b.is_full());
    assert_eq!(b.as_bytes(), &bytes[..63]);
}

#[test]
fn buffer_rejects_byte_when_full() {
    let mut b = CacheBuf::new();
    for i in 0..63u8 {
        assert_eq!(b.try_push(i), Ok(()));
    }
    assert!(b.is_full());
    assert_eq!(b.try_push(7), Err(CapacityError));
    assert_eq!(b.len(), 63);
    assert_eq!(b.as_bytes()[62], 62);
}

#[test]
fn buffer_extend_that_does_not_fit_writes_nothing() {
    let mut b = CacheBuf::new();
    b.extend_from_slice(&[1, 2, 3]);
    let big = [9u8; 61];
    assert_eq!(b.try_extend_from_slice(&big), Err(CapacityError));
    assert_eq!(b.as_bytes(), &[1, 2, 3]);
    assert_eq!(b.remaining_capacity(), 60);
    assert_eq!(b.capacity(), CAPACITY as usize);
}

#[test]
fn buffer_push_and_truncate() {
    let mut b = CacheBuf::new();
    b.push(10);
    b.push(20);
    b.push_unchecked(30);
    b.extend_from_slice_unchecked(&[40, 50]);
    assert_eq!(b.as_bytes(), &[10, 20, 30, 40, 50]);
    b.truncate(2);
    assert_eq!(b.as_bytes(), &[10, 20]);
    b.push(99);
    assert_eq!(b.as_bytes(), &[10, 20, 99]);
}

#[test]
fn equality_is_over_visible_bytes() {
    let mut a = CacheString::from("abcdef");
    a.truncate(3);
    let b = CacheString::from("abc");
    assert!(a == b);
    assert!(a != CacheString::from("abd"));
    assert!(a == *"abc");
    assert!(a == String::from("abc"));
    assert!(a != String::from("abcd"));
}

#[test]
fn default_is_empty() {
    let c = CacheString::default();
    assert!(c.is_empty());
    assert_eq!(c, "");
    assert_eq!(c.remaining_capacity(), 63);
}

#[test]
fn ordering_is_byte_lexicographic() {
    let a = CacheString::from("apple");
    let b = CacheString::from("apples");
    let c = CacheString::from("banana");
    let z = CacheString::from("Zebra");
    assert!(a < b);
    assert!(b < c);
    assert!(z < a);
    assert_eq!(a.partial_cmp(&a), Some(std::cmp::Ordering::Equal));
    assert_eq!(c.partial_cmp(&a), Some(std::cmp::Ordering::Greater));
    assert!(CacheString::new() < a);
}

#[test]
fn deref_gives_text() {
    let c = CacheString::from("Hello, world!");
    let t: &str = &c;
    assert_eq!(t, "Hello, world!");
    assert!(c.starts_with("Hello"));
}

#[test]
fn extend_and_collect_characters() {
    let mut c = CacheString::from("ab");
    c.extend_chars(&['c', 'ß', '😀']);
    assert_eq!(c, "abcß😀");
    let d = CacheString::from_chars(&['x', 'y', 'z']);
    assert_eq!(d, "xyz");
    let e = CacheString::from_chars(&[]);
    assert!(e.is_empty());
}

#[test]
fn extend_and_collect_slices() {
    let mut c = CacheString::from("Hello");
    c.extend_strs(&[", ", "world", "!"]);
    assert_eq!(c, "Hello, world!");
    let d = CacheString::from_strs(&["über", "", "straße"]);
    assert_eq!(d, "überstraße");
    assert_eq!(d.len(), "überstraße".len());
}

#[test]
fn checked_push_str_at_boundary() {
    let mut c = CacheString::from("k".repeat(61).as_str());
    assert_eq!(c.try_push_str("abc"), Err(CapacityError));
    assert_eq!(c.len(), 61);
    assert_eq!(c.as_str(), "k".repeat(61).as_str());
    assert_eq!(c.try_push_str("ab"), Ok(()));
    assert!(c.is_full());
    assert_eq!(c.try_push_str("a"), Err(CapacityError));
    assert_eq!(c.len(), 63);
    assert_eq!(c.try_push_str(""), Ok(()));
    assert_eq!(c.len(), 63);
}

#[test]
fn checked_push_char_at_boundary() {
    let mut c = CacheString::from("k".repeat(62).as_str());
    assert_eq!(c.try_push('é'), Err(CapacityError));
    assert_eq!(c.len(), 62);
    assert_eq!(c.try_push('a'), Ok(()));
    assert!(c.is_full());
    assert_eq!(c.try_push('b'), Err(CapacityError));
    assert_eq!(c.as_str(), format!("{}a", "k".repeat(62)).as_str());

    let mut d = CacheString::from("k".repeat(59).as_str());
    assert_eq!(d.try_push('😀'), Ok(()));
    assert!(d.is_full());
    assert!(d.ends_with('😀'));
}
