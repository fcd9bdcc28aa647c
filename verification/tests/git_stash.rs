use harvest::git_stash::{
    get_stashes, stash_labels, stashes_from_listing, text_of, GitError, GitStash,
    GitStashExecutable, GitStashExecutor,
};

struct MockStashExecutor;

impl MockStashExecutor {
    fn new() -> MockStashExecutor {
        MockStashExecutor {}
    }
}

impl GitStashExecutable for MockStashExecutor {
    fn execute_git_stash_command(&self, _command: &str) -> Result<Vec<u8>, GitError> {
        let sample =
            b"stash@{0}: WIP on refactor: cddaae4 refactor create git_stash module".to_vec();
        Ok(sample)
    }
    fn stash_show(&self, _n: usize) -> Result<Vec<u8>, GitError> {
        let sample = br#" Cargo.lock   | 21 +++++++++++++++++++++
             Cargo.toml       |  1 +
             src/git_stash.rs |  8 ++++++++
             3 files changed, 30 insertions(+)
            "#
        .to_vec();
        Ok(sample)
    }
    fn stash_patch_show(&self, _n: usize) -> Result<Vec<u8>, GitError> {
        let sample = br#"diff --git a/Cargo.lock b/Cargo.lock
            index 295fdbb..6d9592b 100644
            --- a/Cargo.lock
            +++ b/Cargo.lock
            @@ -87,6 +87,7 @@ name = "harvest"
             version = "0.1.2"
             dependencies = [
              "clap",
            + "mocktopus",
              "pager",
             ]
            "#
        .to_vec();

        Ok(sample)
    }
}

#[test]
fn test_git_stash_new() {
    let mock_executor = MockStashExecutor::new();
    let list_output =
        String::from_utf8(mock_executor.execute_git_stash_command("list").unwrap()).unwrap();
    let git_stash = GitStash::new(&mock_executor, 0, list_output).unwrap();

    assert_eq!(
        GitStash {
            number: 0,
            list_output: "stash@{0}: WIP on refactor: cddaae4 refactor create git_stash module"
                .to_string(),
            show_output: String::from_utf8(mock_executor.stash_show(0).unwrap()).unwrap(),
            patch_show_output: String::from_utf8(mock_executor.stash_patch_show(0).unwrap())
                .unwrap(),
        },
        git_stash
    )
}

#[test]
fn test_get_stashes() {
    let mock_executor = MockStashExecutor::new();
    let v = vec![GitStash {
        number: 0,
        list_output: "stash@{0}: WIP on refactor: cddaae4 refactor create git_stash module"
            .to_string(),
        show_output: String::from_utf8(mock_executor.stash_show(0).unwrap()).unwrap(),
        patch_show_output: String::from_utf8(mock_executor.stash_patch_show(0).unwrap())
            .unwrap(),
    }];

    assert_eq!(v, get_stashes(mock_executor).unwrap())
}

struct ScriptedExecutor {
    listing: Result<Vec<u8>, String>,
    failing_show: Option<usize>,
    failing_patch_show: Option<usize>,
}

impl ScriptedExecutor {
    fn listing(text: &str) -> ScriptedExecutor {
        ScriptedExecutor {
            listing: Ok(text.as_bytes().to_vec()),
            failing_show: None,
            failing_patch_show: None,
        }
    }
}

impl GitStashExecutable for ScriptedExecutor {
    fn execute_git_stash_command(&self, command: &str) -> Result<Vec<u8>, GitError> {
        assert_eq!("list", command);
        match &self.listing {
            Ok(bytes) => Ok(bytes.clone()),
            Err(msg) => Err(GitError::new(msg.clone())),
        }
    }
    fn stash_show(&self, n: usize) -> Result<Vec<u8>, GitError> {
        if self.failing_show == Some(n) {
            Err(GitError::new(format!("no summary of {}", n)))
        } else {
            Ok(format!("summary of {}", n).into_bytes())
        }
    }
    fn stash_patch_show(&self, n: usize) -> Result<Vec<u8>, GitError> {
        if self.failing_patch_show == Some(n) {
            Err(GitError::new(format!("no diff of {}", n)))
        } else {
            Ok(format!("diff of {}", n).into_bytes())
        }
    }
}

#[test]
fn git_error_keeps_its_message() {
    let error = GitError::new(String::from("fatal: not a git repository"));
    assert_eq!("fatal: not a git repository", error.message());
    assert_eq!("", GitError::new(String::new()).message());
}

#[test]
fn text_of_reads_utf8() {
    assert_eq!("stash", text_of(b"stash".to_vec()).unwrap());
    assert_eq!("h\u{e9}llo \u{1f600}", text_of("h\u{e9}llo \u{1f600}".as_bytes().to_vec()).unwrap());
    assert_eq!("", text_of(Vec::new()).unwrap());
}

#[test]
fn text_of_refuses_what_is_not_utf8() {
    assert_eq!("output is not valid UTF-8", text_of(vec![0xff]).unwrap_err().message());
    assert_eq!("output is not valid UTF-8", text_of(vec![b'a', 0xc3]).unwrap_err().message());
    assert_eq!("output is not valid UTF-8", text_of(vec![0xc0, 0x80]).unwrap_err().message());
    assert_eq!("output is not valid UTF-8", text_of(vec![0xed, 0xa0, 0x80]).unwrap_err().message());
}

#[test]
fn executor_builds_its_command_lines() {
    let executor = GitStashExecutor::new();
    assert_eq!("git stash list", executor.command_line("list"));
    assert_eq!("git stash ", executor.command_line(""));
    assert_eq!("git stash show stash@{0}", executor.command_line("show stash@{0}"));
    assert_eq!("show stash@{0}", executor.show_command(0));
    assert_eq!("show stash@{12}", executor.show_command(12));
    assert_eq!("show -p stash@{0}", executor.patch_show_command(0));
    assert_eq!("show -p stash@{305}", executor.patch_show_command(305));
    assert_eq!(
        "git stash show -p stash@{4}",
        executor.command_line(&executor.patch_show_command(4))
    );
}

#[test]
fn executor_hands_out_the_output_of_a_command_that_succeeded() {
    let executor = GitStashExecutor::new();
    let outcome = executor.outcome(true, b"stash@{0}: WIP".to_vec(), b"warning".to_vec());
    assert_eq!(b"stash@{0}: WIP".to_vec(), outcome.unwrap());
    let outcome = executor.outcome(true, vec![0xff, 0x00], vec![0xff]);
    assert_eq!(vec![0xff, 0x00], outcome.unwrap());
}

#[test]
fn executor_turns_a_failed_command_into_its_error_text() {
    let executor = GitStashExecutor::new();
    let outcome = executor.outcome(false, b"partial".to_vec(), b"fatal: no stash\n".to_vec());
    assert_eq!("fatal: no stash\n", outcome.unwrap_err().message());
    let outcome = executor.outcome(false, Vec::new(), Vec::new());
    assert_eq!("", outcome.unwrap_err().message());
    let outcome = executor.outcome(false, Vec::new(), vec![0x80]);
    assert_eq!("output is not valid UTF-8", outcome.unwrap_err().message());
}

#[test]
fn stash_labels_reads_one_label_from_each_line() {
    let labels = stash_labels(b"stash@{0}: WIP on main: 1a2b3c4 one\nstash@{1}: On main: two\n");
    assert_eq!(
        vec![
            String::from("stash@{0}: WIP on main: 1a2b3c4 one"),
            String::from("stash@{1}: On main: two")
        ],
        labels.unwrap()
    );
    assert_eq!(vec![String::from("h\u{e9}")], stash_labels("h\u{e9}".as_bytes()).unwrap());
}

#[test]
fn stash_labels_of_an_empty_list_is_an_error() {
    assert_eq!("no stashes", stash_labels(b"").unwrap_err().message());
}

#[test]
fn stash_labels_refuses_a_line_that_is_not_utf8() {
    let listing = [b'a', b'\n', 0xff, b'\n', b'c'];
    assert_eq!("output is not valid UTF-8", stash_labels(&listing).unwrap_err().message());
}

#[test]
fn assemble_puts_an_entry_together() {
    let stash = GitStash::assemble(
        3,
        String::from("stash@{3}: WIP"),
        b" a | 1 +".to_vec(),
        "+h\u{e9}".as_bytes().to_vec(),
    );
    assert_eq!(
        GitStash {
            number: 3,
            list_output: String::from("stash@{3}: WIP"),
            show_output: String::from(" a | 1 +"),
            patch_show_output: String::from("+h\u{e9}"),
        },
        stash.unwrap()
    );
}

#[test]
fn assemble_refuses_what_is_not_utf8() {
    let stash = GitStash::assemble(0, String::from("label"), vec![0xff], b"+a".to_vec());
    assert_eq!("output is not valid UTF-8", stash.unwrap_err().message());
    let stash = GitStash::assemble(0, String::from("label"), b"a".to_vec(), vec![0xc3, 0x28]);
    assert_eq!("output is not valid UTF-8", stash.unwrap_err().message());
}

#[test]
fn render_shows_the_label_and_the_summary() {
    let stash = GitStash {
        number: 1,
        list_output: String::from("stash@{1}: WIP on main"),
        show_output: String::from(" src/lib.rs | 2 +-\n"),
        patch_show_output: String::from("+secret"),
    };
    assert_eq!("stash@{1}: WIP on main\n src/lib.rs | 2 +-\n", stash.render());
}

#[test]
fn git_stash_new_hands_on_the_error_of_the_summary() {
    let mut executor = ScriptedExecutor::listing("a\n");
    executor.failing_show = Some(2);
    executor.failing_patch_show = Some(2);
    let error = GitStash::new(&executor, 2, String::from("a")).unwrap_err();
    assert_eq!("no summary of 2", error.message());
}

#[test]
fn git_stash_new_hands_on_the_error_of_the_diff() {
    let mut executor = ScriptedExecutor::listing("a\n");
    executor.failing_patch_show = Some(0);
    let error = GitStash::new(&executor, 0, String::from("a")).unwrap_err();
    assert_eq!("no diff of 0", error.message());
    assert!(GitStash::new(&executor, 1, String::from("a")).is_ok());
}

#[test]
fn get_stashes_numbers_the_entries_in_the_order_of_the_list() {
    let executor = ScriptedExecutor::listing("stash@{0}: first\nstash@{1}: second\r\nstash@{2}: third");
    let expected: Vec<GitStash> = ["stash@{0}: first", "stash@{1}: second", "stash@{2}: third"]
        .iter()
        .enumerate()
        .map(|(number, label)| GitStash {
            number,
            list_output: label.to_string(),
            show_output: format!("summary of {}", number),
            patch_show_output: format!("diff of {}", number),
        })
        .collect();
    assert_eq!(expected, get_stashes(executor).unwrap());
}

#[test]
fn get_stashes_hands_on_the_error_of_the_list() {
    let executor = ScriptedExecutor {
        listing: Err(String::from("fatal: not a git repository")),
        failing_show: None,
        failing_patch_show: None,
    };
    assert_eq!("fatal: not a git repository", get_stashes(executor).unwrap_err().message());
}

#[test]
fn get_stashes_of_an_empty_list_is_an_error() {
    assert_eq!("no stashes", get_stashes(ScriptedExecutor::listing("")).unwrap_err().message());
}

#[test]
fn get_stashes_gives_no_part_of_the_entries_after_an_error() {
    let mut executor = ScriptedExecutor::listing("a\nb\nc\n");
    executor.failing_patch_show = Some(2);
    assert_eq!("no diff of 2", get_stashes(executor).unwrap_err().message());
    let mut executor = ScriptedExecutor::listing("a\nb\nc\n");
    executor.failing_show = Some(1);
    executor.failing_patch_show = Some(0);
    assert_eq!("no diff of 0", get_stashes(executor).unwrap_err().message());
}

#[test]
fn get_stashes_refuses_a_list_that_is_not_utf8() {
    let executor = ScriptedExecutor {
        listing: Ok(vec![b'a', b'\n', 0xfe]),
        failing_show: None,
        failing_patch_show: None,
    };
    assert_eq!("output is not valid UTF-8", get_stashes(executor).unwrap_err().message());
}

#[test]
fn stashes_from_listing_reads_the_list_it_is_given() {
    let executor = ScriptedExecutor::listing("not asked");
    let stashes = stashes_from_listing(&executor, b"x\ny\n").unwrap();
    assert_eq!(2, stashes.len());
    assert_eq!(0, stashes[0].number);
    assert_eq!("x", stashes[0].list_output);
    assert_eq!("summary of 0", stashes[0].show_output);
    assert_eq!("diff of 0", stashes[0].patch_show_output);
    assert_eq!(1, stashes[1].number);
    assert_eq!("y", stashes[1].list_output);
    assert_eq!("no stashes", stashes_from_listing(&executor, b"").unwrap_err().message());
}

#[test]
fn get_stashes_gives_each_entry_a_label_of_one_line() {
    let executor = ScriptedExecutor::listing("first\n\nthird\r\nfourth\rstill fourth\n");
    let stashes = get_stashes(executor).unwrap();
    let labels: Vec<&str> = stashes.iter().map(|stash| stash.list_output.as_str()).collect();
    assert_eq!(vec!["first", "", "third", "fourth\rstill fourth"], labels);
    assert!(stashes.iter().all(|stash| !stash.list_output.contains('\n')));
}
