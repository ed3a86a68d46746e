use garuda::prefetch::{clamp_range, span_to_warm, GgufPagePrefetcher, LayerPrefetcher};
use garuda::stream::{BlockStreamer, StreamPrefetcher};

/// A file in memory, and the ring's buffers.
struct Reader {
    data: Vec<u8>,
    slots: Vec<Vec<u8>>,
    ring: BlockStreamer,
}

impl Reader {
    fn open(data: Vec<u8>, spans: Vec<(usize, usize)>) -> Self {
        Self {
            data,
            slots: vec![Vec::new(); 3],
            ring: BlockStreamer::new(spans),
        }
    }
    fn read(&mut self, l: usize, span: (usize, usize)) {
        let (start, len) = span;
        let whole = start + len <= self.data.len();
        if whole {
            let slot = self.ring.slot_of(l);
            self.slots[slot] = self.data[start..start + len].to_vec();
        }
        self.ring.filled(l, whole);
    }
    fn fetch(&mut self, l: usize) {
        if let Some(span) = self.ring.fetch(l) {
            self.read(l, span);
        }
    }
    fn borrow(&mut self, l: usize) -> Vec<u8> {
        if let Some(span) = self.ring.borrow_block(l) {
            self.read(l, span);
        }
        self.slots[self.ring.slot_of(l)].clone()
    }
}

/// What a streamed block must be: exactly the bytes at that offset in the file,
/// however it was fetched, ahead of time or inline.
#[test]
fn a_streamed_block_is_the_bytes_the_file_holds() {
    let data: Vec<u8> = (0..4096).map(|i| (i % 251) as u8).collect();
    let spans = vec![(0, 1024), (1024, 1024), (2048, 1024), (3072, 1024)];
    let mut s = Reader::open(data.clone(), spans);

    // Fetched ahead, then borrowed.
    s.fetch(1);
    assert_eq!(s.borrow(1), &data[1024..2048]);

    // Never fetched: read inline, same answer.
    assert_eq!(s.borrow(2), &data[2048..3072]);

    // The ring wraps, and a slot that held an older block is refilled.
    s.fetch(3);
    assert_eq!(s.borrow(3), &data[3072..4096]);
    assert_eq!(s.borrow(0), &data[0..1024]);

    let (hits, inline) = s.ring.stats();
    assert_eq!(hits + inline, 4, "every borrow is accounted for");
    assert!(inline >= 1, "the block nobody fetched was read inline");

    // A block the engine holds resident is not streamed at all.
    let resident = BlockStreamer::new(vec![(0, 0), (1024, 1024)]);
    assert!(!resident.streams(0));
    assert!(resident.streams(1));
    assert_eq!(resident.base(1), 1024);
    assert_eq!(resident.widest(), 1024);
    assert_eq!(resident.fetch(0), None);
}

/// The readers and the pass share the ring without stepping on each other: the
/// bytes a borrow returns are still the right ones after several laps.
#[test]
fn readers_running_ahead_do_not_disturb_a_borrowed_block() {
    let data: Vec<u8> = (0..8192).map(|i| (i % 251) as u8).collect();
    let spans: Vec<(usize, usize)> = (0..8).map(|l| (l * 1024, 1024)).collect();
    let mut s = Reader::open(data.clone(), spans);
    let mut pf = StreamPrefetcher::new(2);

    for _ in 0..3 {
        for l in 0..8 {
            let held = s.borrow(l);
            pf.hint_ahead(l);
            while let Some(next) = pf.take() {
                s.fetch(next);
            }
            assert_eq!(held, &data[l * 1024..(l + 1) * 1024]);
            assert_eq!(
                s.slots[s.ring.slot_of(l)],
                held,
                "block {l} was overwritten while it was held"
            );
        }
    }
    let (hits, inline) = s.ring.stats();
    assert_eq!(hits + inline, 24);
    assert!(hits >= 20, "reading ahead served {hits}");
}

#[test]
fn a_short_read_is_not_served() {
    let mut s = Reader::open(vec![1; 10], vec![(0, 4), (8, 4)]);
    s.fetch(1);
    assert_eq!(s.ring.fetch(1), Some((8, 4)), "it is still to be read");
    let _ = s.borrow(1);
    assert_eq!(s.ring.stats(), (0, 1));
}

/// Every hint is either taken or deliberately dropped.
#[test]
fn the_layer_prefetcher_accounts_for_every_hint() {
    let spans = [
        (0, 64 * 1024),
        (64 * 1024, 64 * 1024),
        (128 * 1024, 64 * 1024),
    ];
    let mut pf = LayerPrefetcher::with_workers(2);
    for l in 0..3 {
        pf.hint(l);
    }
    // Past the end of the block list: a hint is never load-bearing.
    pf.hint(99);
    // Two workers, so this asks for the two blocks after layer 0.
    pf.hint_ahead(0);
    let (launched, skipped) = pf.stats();
    assert_eq!(launched + skipped, 6, "every hint is accounted for");
    assert_eq!(pf.take(), Some(0), "the oldest hint first");
    assert_eq!(span_to_warm(&spans, 0), Some((0, 64 * 1024)));
    assert_eq!(span_to_warm(&spans, 99), None);
}

#[test]
fn pages_are_warmed_only_within_the_map() {
    assert_eq!(clamp_range((10, 20), 100), Some((10, 20)));
    assert_eq!(clamp_range((90, 20), 100), Some((90, 10)));
    assert_eq!(clamp_range((100, 1), 100), None);
    let pf = GgufPagePrefetcher::new(100, vec![vec![(0, 10), (95, 10), (200, 1)], vec![]]);
    assert_eq!(pf.prefetch(0), vec![(0, 10), (95, 5)]);
    assert!(pf.prefetch(1).is_empty());
    assert!(pf.prefetch(7).is_empty());
    assert!(!pf.is_resident(0));
    assert!(pf
        .load(3)
        .message()
        .contains("GgufPagePrefetcher only warms mmap pages for expert 3"));
}
