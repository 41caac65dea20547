use import_sorter::{
    determine_import_group, find_import_blocks, group_and_sort_imports, rebuild_content,
    sort_imports_by_keys, ImportGroup,
};

fn strings(v: &[&str]) -> Vec<String> {
    v.iter().map(|s| s.to_string()).collect()
}

fn sorted_lines(v: &[&str]) -> Vec<String> {
    group_and_sort_imports(&strings(v)).into_iter().map(|g| g.line).collect()
}

#[test]
fn future_stdlib_thirdparty_scenario() {
    let lines = ["import sys", "from __future__ import annotations", "import numpy", "", "print(1)"];
    let blocks = find_import_blocks(&lines);
    assert_eq!(blocks.len(), 1);
    assert_eq!(blocks[0].imports, strings(&lines[0..3]));
    assert_eq!(blocks[0].start_line, 0);
    assert_eq!(blocks[0].end_line, 2);
    let out = rebuild_content(&lines).unwrap();
    assert_eq!(
        out,
        "from __future__ import annotations\n\nimport sys\n\nimport numpy\n\n\nprint(1)\n"
    );
}

#[test]
fn file_without_imports_is_left_alone() {
    let lines = ["", "  x = 1", "print(x)  ", ""];
    assert!(find_import_blocks(&lines).is_empty());
    assert_eq!(rebuild_content(&lines), None);
    assert_eq!(rebuild_content(&[]), None);
}

#[test]
fn comment_separates_two_blocks() {
    let lines = ["import sys", "import os", "# c", "import b", "import a"];
    let blocks = find_import_blocks(&lines);
    assert_eq!(blocks.len(), 2);
    assert_eq!((blocks[0].start_line, blocks[0].end_line), (0, 1));
    assert_eq!((blocks[1].start_line, blocks[1].end_line), (3, 4));
    let out = rebuild_content(&lines).unwrap();
    assert_eq!(out, "import os\nimport sys\n\n\n# c\n\nimport a\nimport b\n\n\n");
}

#[test]
fn blank_lines_stay_inside_a_block() {
    let lines = ["import a", "", "", "   import b  ", "x = 1", "", "import c"];
    let blocks = find_import_blocks(&lines);
    assert_eq!(blocks.len(), 2);
    assert_eq!(blocks[0].imports, strings(&["import a", "import b"]));
    assert_eq!((blocks[0].start_line, blocks[0].end_line), (0, 3));
    assert_eq!(blocks[1].imports, strings(&["import c"]));
    assert_eq!((blocks[1].start_line, blocks[1].end_line), (6, 6));
}

#[test]
fn trailing_blank_lines_do_not_join_the_block() {
    let lines = ["import a", "", ""];
    let blocks = find_import_blocks(&lines);
    assert_eq!(blocks.len(), 1);
    assert_eq!(blocks[0].end_line, 0);
    assert_eq!(rebuild_content(&lines).unwrap(), "import a\n\n\n");
}

#[test]
fn import_pattern_edges() {
    let lines = [
        "importlib x",
        "import",
        "from x import",
        "from x importy z",
        "from\tx\timport\ty",
        "import\tos",
    ];
    let blocks = find_import_blocks(&lines);
    assert_eq!(blocks.len(), 1);
    assert_eq!(blocks[0].imports, strings(&["from\tx\timport\ty", "import\tos"]));
    assert_eq!((blocks[0].start_line, blocks[0].end_line), (4, 5));
}

#[test]
fn groups_are_classified() {
    assert_eq!(determine_import_group("from __future__ import annotations"), ImportGroup::Future);
    assert_eq!(determine_import_group("import x  # __future__"), ImportGroup::Future);
    assert_eq!(determine_import_group("from . import sibling"), ImportGroup::LocalLib);
    assert_eq!(determine_import_group("from ..pkg import thing"), ImportGroup::LocalLib);
    assert_eq!(determine_import_group("from .mod import thing"), ImportGroup::LocalLib);
    assert_eq!(determine_import_group("from os.path import join"), ImportGroup::StandardLib);
    assert_eq!(determine_import_group("import collections.abc"), ImportGroup::StandardLib);
    assert_eq!(determine_import_group("import typing"), ImportGroup::StandardLib);
    assert_eq!(determine_import_group("import numpy"), ImportGroup::ThirdParty);
    assert_eq!(determine_import_group("import osx"), ImportGroup::ThirdParty);
    assert_eq!(determine_import_group("import"), ImportGroup::ThirdParty);
    assert_eq!(determine_import_group(""), ImportGroup::ThirdParty);
}

#[test]
fn category_order_is_kept() {
    let out = group_and_sort_imports(&strings(&[
        "from . import a",
        "import requests",
        "import os",
        "from __future__ import annotations",
    ]));
    let groups: Vec<ImportGroup> = out.iter().map(|g| g.group).collect();
    assert_eq!(
        groups,
        vec![
            ImportGroup::Future,
            ImportGroup::StandardLib,
            ImportGroup::ThirdParty,
            ImportGroup::LocalLib
        ]
    );
    assert_eq!(out[0].line, "from __future__ import annotations");
    assert_eq!(out[3].line, "from . import a");
}

#[test]
fn plain_import_before_from_import() {
    assert_eq!(
        sorted_lines(&["from aaa import b", "import zzz"]),
        strings(&["import zzz", "from aaa import b"])
    );
    assert_eq!(
        sorted_lines(&["from os import path", "import sys", "from json import dumps", "import re"]),
        strings(&["import re", "import sys", "from json import dumps", "from os import path"])
    );
}

#[test]
fn sorting_ignores_case() {
    assert_eq!(sorted_lines(&["import B", "import a"]), strings(&["import a", "import B"]));
    assert_eq!(sorted_lines(&["import a", "import B"]), strings(&["import a", "import B"]));
}

#[test]
fn equal_keys_keep_their_order() {
    assert_eq!(sorted_lines(&["import Foo", "import foo"]), strings(&["import Foo", "import foo"]));
    assert_eq!(sorted_lines(&["import foo", "import Foo"]), strings(&["import foo", "import Foo"]));
    assert_eq!(sorted_lines(&["import x", "import x"]), strings(&["import x", "import x"]));
}

#[test]
fn sorting_keeps_every_line() {
    let input = ["import b", "from __future__ import x", "import b", "from . import c", "import os"];
    let mut out = sorted_lines(&input);
    let mut expected = strings(&input);
    out.sort();
    expected.sort();
    assert_eq!(out, expected);
    assert!(group_and_sort_imports(&[]).is_empty());
}

#[test]
fn only_blank_lines_around_block_are_dropped() {
    let lines = [
        "#!/usr/bin/env python",
        "\"\"\"doc\"\"\"   ",
        "",
        "   ",
        "import sys",
        "import os",
        "",
        "",
        "   def f(): pass",
        "",
    ];
    let out = rebuild_content(&lines).unwrap();
    assert_eq!(
        out,
        "#!/usr/bin/env python\n\"\"\"doc\"\"\"   \n\nimport os\nimport sys\n\n\n   def f(): pass\n\n"
    );
}

#[test]
fn one_blank_line_between_categories_only() {
    let lines = ["from . import z", "import requests", "import flask", "import json"];
    let out = rebuild_content(&lines).unwrap();
    assert_eq!(out, "import json\n\nimport flask\nimport requests\n\nfrom . import z\n\n\n");
}

#[test]
fn single_block_output_is_stable() {
    let lines = ["x = 1", "", "import sys", "from __future__ import annotations", "import numpy", "y = 2"];
    let once = rebuild_content(&lines).unwrap();
    let again_lines: Vec<&str> = once.lines().collect();
    let twice = rebuild_content(&again_lines).unwrap();
    assert_eq!(once, twice);
}

#[test]
fn indentation_after_block_is_kept() {
    let lines = ["def f():", "    import os", "    return os.sep"];
    let out = rebuild_content(&lines).unwrap();
    assert_eq!(out, "def f():\n\nimport os\n\n\n    return os.sep\n");
    let lines = ["import a", " x"];
    assert_eq!(rebuild_content(&lines).unwrap(), "import a\n\n\n x\n");
}

#[test]
fn keyed_sort_follows_given_keys() {
    let imports = strings(&["import a", "import b", "from c import d", "import os"]);
    let keys = strings(&["2", "1", "0", "9"]);
    let out: Vec<String> = sort_imports_by_keys(&imports, &keys).into_iter().map(|g| g.line).collect();
    assert_eq!(out, strings(&["import os", "import b", "import a", "from c import d"]));
    let same = strings(&["k", "k"]);
    let out: Vec<String> =
        sort_imports_by_keys(&strings(&["import y", "import x"]), &same).into_iter().map(|g| g.line).collect();
    assert_eq!(out, strings(&["import y", "import x"]));
}
