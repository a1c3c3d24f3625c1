use search_index::index_builder::BATCH_SIZE;
use search_index::lazy_merger::{
    batch_count, leading_of, merge_batches, merge_index, opens_new_file, write_merged, Merger,
};
use search_index::postings::Postings;

fn lines(lists: &[Postings]) -> Vec<String> {
    lists.iter().map(|l| l.save_postings()).collect()
}

#[test]
fn batches_are_counted() {
    assert_eq!(BATCH_SIZE, 5000);
    assert_eq!(batch_count(0), 0);
    assert_eq!(batch_count(1), 1);
    assert_eq!(batch_count(5000), 1);
    assert_eq!(batch_count(5001), 2);
    assert_eq!(batch_count(55393), 12);
}

#[test]
fn merge_of_two_shards() {
    let shards = vec![b"cat:1|1\n".to_vec(), b"cat:2|1\ndog:3|1\n".to_vec()];
    assert_eq!(lines(&merge_batches(&shards)), vec!["cat:1|1,2|1", "dog:3|1"]);
}

#[test]
fn merge_of_no_shards_is_empty() {
    assert!(merge_batches(&Vec::new()).is_empty());
    assert!(merge_batches(&vec![Vec::new(), Vec::new()]).is_empty());
}

#[test]
fn merge_is_in_term_order() {
    let shards = vec![
        b"bee:1|1\nemu:1|2\n".to_vec(),
        b"ant:7|1\nemu:9|1\nfox:9|9\n".to_vec(),
        b"cat:4|4\n".to_vec(),
    ];
    assert_eq!(
        lines(&merge_batches(&shards)),
        vec!["ant:7|1", "bee:1|1", "cat:4|4", "emu:1|2,9|1", "fox:9|9"]
    );
}

#[test]
fn merge_adds_frequencies_of_shared_documents() {
    let shards = vec![b"cat:1|2,5|1\n".to_vec(), b"cat:1|3\n".to_vec()];
    assert_eq!(lines(&merge_batches(&shards)), vec!["cat:1|5,5|1"]);
}

#[test]
fn shard_ends_at_first_unreadable_line() {
    let shards = vec![b"ant:1|1\n\ncat:2|2\n".to_vec(), b"bee:3|3\nnot a line\ndog:4|4\n".to_vec()];
    assert_eq!(lines(&merge_batches(&shards)), vec!["ant:1|1", "bee:3|3"]);
}

#[test]
fn last_line_without_line_feed_is_read() {
    let shards = vec![b"ant:1|1\ncat:2|2".to_vec()];
    assert_eq!(lines(&merge_batches(&shards)), vec!["ant:1|1", "cat:2|2"]);
}

#[test]
fn merged_lists_are_cut_by_leading_character() {
    let shards = vec![b"cat:1|1\ndog:3|1\n".to_vec(), b"cow:2|1\ndoe:5|5\n".to_vec()];
    let files = write_merged(&merge_batches(&shards));
    assert_eq!(files.len(), 2);
    assert_eq!(files[0].character, 'c');
    assert_eq!(files[0].content, b"cat:1|1\ncow:2|1\n".to_vec());
    assert_eq!(files[1].character, 'd');
    assert_eq!(files[1].content, b"doe:5|5\ndog:3|1\n".to_vec());
    assert_eq!(files[0].skip_list.len(), 1);
    assert_eq!(files[0].skip_list[0].word, b"cat".to_vec());
    assert_eq!(files[0].skip_list[0].byte_offset, 0);
    assert_eq!(files[1].skip_list[0].word, b"doe".to_vec());
}

#[test]
fn no_lists_give_no_files() {
    assert!(write_merged(&Vec::new()).is_empty());
}

#[test]
fn whole_index_is_merged_range_by_range() {
    let ranges = vec![
        vec![b"1st:1|1\n".to_vec(), b"1st:2|1\n2nd:2|2\n".to_vec()],
        vec![b"cat:1|1\n".to_vec(), b"cat:2|1\ndog:3|1\n".to_vec()],
        vec![],
        vec![b"zoo:9|1\n".to_vec()],
    ];
    let files = merge_index(&ranges);
    let seen: Vec<(char, String)> = files
        .iter()
        .map(|f| (f.character, String::from_utf8(f.content.clone()).unwrap()))
        .collect();
    assert_eq!(
        seen,
        vec![
            ('1', "1st:1|1,2|1\n".to_string()),
            ('2', "2nd:2|2\n".to_string()),
            ('c', "cat:1|1,2|1\n".to_string()),
            ('d', "dog:3|1\n".to_string()),
            ('z', "zoo:9|1\n".to_string()),
        ]
    );
}

#[test]
fn skip_lists_of_merged_files_sample_every_hundredth_line() {
    let mut shard = Vec::new();
    for i in 0..205 {
        shard.extend_from_slice(format!("a{:04}:1|1\n", i).as_bytes());
    }
    let files = merge_index(&vec![vec![shard]]);
    assert_eq!(files.len(), 1);
    let offsets: Vec<u64> = files[0].skip_list.iter().map(|e| e.byte_offset).collect();
    assert_eq!(offsets, vec![0, 1000, 2000]);
}

#[test]
fn lists_are_filed_by_their_first_character() {
    assert_eq!(leading_of(&Postings::new("cat".to_string())), 'c');
    assert_eq!(leading_of(&Postings::new("\u{e9}t\u{e9}".to_string())), '\u{e9}');
    assert_eq!(leading_of(&Postings::new("".to_string())), '0');
}

#[test]
fn merger_without_readers_has_no_list() {
    assert!(Merger::new(0).next_list().is_none());
    assert!(Merger::new(3).next_list().is_none());
}

#[test]
fn merger_takes_lines_and_gives_lists() {
    let mut merger = Merger::new(3);
    assert!(merger.read_line(0, b"cat:1|1\n"));
    assert!(merger.read_line(1, b"ant:2|2\n"));
    assert!(merger.read_line(2, b"cat:3|3\n"));
    let (list, readers) = merger.next_list().unwrap();
    assert_eq!(lines(&[list]), vec!["ant:2|2"]);
    assert_eq!(readers, vec![1]);
    assert!(merger.read_line(1, b"cat:2|5\n"));
    let (list, readers) = merger.next_list().unwrap();
    assert_eq!(lines(&[list]), vec!["cat:1|1,2|5,3|3"]);
    assert_eq!(readers, vec![0, 1, 2]);
    assert!(merger.next_list().is_none());
}

#[test]
fn merger_drops_a_reader_at_a_bad_line() {
    let mut merger = Merger::new(2);
    assert!(merger.read_line(0, b"cat:1|1\n"));
    assert!(merger.read_line(1, b"bee:1|1\n"));
    assert!(!merger.read_line(1, b"no list\n"));
    assert!(!merger.read_line(2, b"dog:1|1\n"));
    let (list, readers) = merger.next_list().unwrap();
    assert_eq!(lines(&[list]), vec!["cat:1|1"]);
    assert_eq!(readers, vec![0]);
    assert!(merger.next_list().is_none());
}

#[test]
fn merger_fed_line_by_line_merges_like_merge_batches() {
    let shards: Vec<Vec<u8>> = vec![
        b"bee:1|1\nemu:1|2\n".to_vec(),
        b"ant:7|1\nemu:9|1\nfox:9|9\n".to_vec(),
        b"cat:4|4".to_vec(),
    ];
    let mut cursors: Vec<std::slice::Split<u8, _>> = Vec::new();
    for shard in &shards {
        cursors.push(shard.split(|b| *b == b'\n'));
    }
    let mut merger = Merger::new(shards.len());
    for (reader, cursor) in cursors.iter_mut().enumerate() {
        if let Some(line) = cursor.next() {
            merger.read_line(reader, line);
        }
    }
    let mut merged = Vec::new();
    while let Some((list, readers)) = merger.next_list() {
        merged.push(list);
        for reader in readers {
            if let Some(line) = cursors[reader].next() {
                merger.read_line(reader, line);
            }
        }
    }
    assert_eq!(lines(&merged), lines(&merge_batches(&shards)));
    assert_eq!(lines(&merged), vec!["ant:7|1", "bee:1|1", "cat:4|4", "emu:1|2,9|1", "fox:9|9"]);
}

#[test]
fn a_new_file_opens_where_the_leading_character_changes() {
    let cat = Postings::new("cat".to_string());
    assert!(opens_new_file(None, &cat));
    assert!(opens_new_file(Some('b'), &cat));
    assert!(!opens_new_file(Some('c'), &cat));
    assert!(!opens_new_file(Some('0'), &Postings::new("".to_string())));
}
