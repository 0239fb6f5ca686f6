use pixmux::btree::{BTreeNode, PathError};
use pixmux::panes::{PaneData, SplitData, SplitDirection};
use pixmux::parse_csv::CsvData;
use pixmux::session::{command_for, App, Command, KeyCode, KeyPress};
use pixmux::{AdjustDirection, Tab};

fn app_with(row_count: usize, image_count: usize) -> App {
    let data = CsvData {
        headers: vec!["name".to_string()],
        rows: (0..row_count).map(|row| vec![format!("row{}", row)]).collect(),
        row_dirs: (0..row_count).map(|row| format!("dir{}", row)).collect(),
    };
    App::new(data, (0..image_count).map(|image| format!("{}.png", image)).collect())
}

fn plain(c: char) -> KeyPress {
    KeyPress { code: KeyCode::Char(c), plain: true }
}

fn held(c: char) -> KeyPress {
    KeyPress { code: KeyCode::Char(c), plain: false }
}

#[test]
fn keys_mean_what_the_tab_lets_them_mean() {
    let h = SplitDirection::Horizontal;
    let v = SplitDirection::Vertical;
    let table = [
        ('h', Command::Navigate(h, AdjustDirection::Previous)),
        ('j', Command::Navigate(v, AdjustDirection::Next)),
        ('k', Command::Navigate(v, AdjustDirection::Previous)),
        ('l', Command::Navigate(h, AdjustDirection::Next)),
        ('r', Command::Split(h)),
        ('b', Command::Split(v)),
        ('x', Command::Remove),
        ('a', Command::Resize(h, -5)),
        ('s', Command::Resize(v, 5)),
        ('w', Command::Resize(v, -5)),
        ('d', Command::Resize(h, 5)),
    ];
    for (c, command) in table {
        assert_eq!(command_for(plain(c), Tab::Image), command);
        assert_eq!(command_for(plain(c), Tab::Data), Command::Nothing);
        assert_eq!(command_for(held(c), Tab::Image), Command::Nothing);
    }
    for tab in [Tab::Data, Tab::Image] {
        assert_eq!(command_for(plain('q'), tab), Command::Quit);
        assert_eq!(command_for(held('q'), tab), Command::Quit);
        assert_eq!(command_for(KeyPress { code: KeyCode::Tab, plain: true }, tab), Command::NextTab);
        assert_eq!(command_for(KeyPress { code: KeyCode::Tab, plain: false }, tab), Command::Nothing);
        assert_eq!(command_for(KeyPress { code: KeyCode::Up, plain: true }, tab), Command::RowUp);
        assert_eq!(command_for(KeyPress { code: KeyCode::Down, plain: true }, tab), Command::RowDown);
        assert_eq!(command_for(KeyPress { code: KeyCode::Down, plain: false }, tab), Command::Nothing);
        assert_eq!(command_for(KeyPress { code: KeyCode::Other, plain: true }, tab), Command::Nothing);
        assert_eq!(command_for(plain('z'), tab), Command::Nothing);
    }
    assert_eq!(command_for(held('ä'), Tab::Image), Command::CycleImage(AdjustDirection::Next));
    assert_eq!(command_for(plain('ö'), Tab::Image), Command::CycleImage(AdjustDirection::Previous));
    assert_eq!(command_for(plain('ä'), Tab::Data), Command::Nothing);
}

#[test]
fn a_sitting_at_the_keys() {
    let mut app = app_with(3, 4);
    assert!(!app.running);
    app.running = true;
    let tab = KeyPress { code: KeyCode::Tab, plain: true };
    let down = KeyPress { code: KeyCode::Down, plain: true };
    let up = KeyPress { code: KeyCode::Up, plain: true };
    for _ in 0..5 {
        app.on_key_event(down).unwrap();
    }
    assert_eq!(app.current_datarow_index, 2);
    app.on_key_event(up).unwrap();
    assert_eq!(app.current_datarow_index, 1);
    app.on_key_event(plain('r')).unwrap();
    assert_eq!(app.pane_tree.collect_leaf_paths(), vec![Vec::<bool>::new()]);
    app.on_key_event(tab).unwrap();
    assert_eq!(app.current_tab, Tab::Image);
    app.on_key_event(held('ä')).unwrap();
    app.on_key_event(plain('r')).unwrap();
    assert_eq!(app.current_pane_path, vec![false]);
    app.on_key_event(plain('b')).unwrap();
    assert_eq!(app.current_pane_path, vec![false, false]);
    app.on_key_event(plain('ö')).unwrap();
    app.on_key_event(plain('k')).unwrap();
    assert_eq!(app.current_pane_path, vec![false, true]);
    app.on_key_event(plain('k')).unwrap();
    assert_eq!(app.current_pane_path, vec![false, true]);
    app.on_key_event(plain('s')).unwrap();
    app.on_key_event(plain('a')).unwrap();
    app.on_key_event(plain('h')).unwrap();
    assert_eq!(app.current_pane_path, vec![true]);
    let spec = app.pane_tree.get_spec();
    assert_eq!(
        spec.leaf_data,
        vec![PaneData { image_id: 1 }, PaneData { image_id: 1 }, PaneData { image_id: 0 }]
    );
    assert_eq!(
        spec.branch_data,
        vec![
            SplitData { direction: SplitDirection::Horizontal, pct: 45 },
            SplitData { direction: SplitDirection::Vertical, pct: 55 }
        ]
    );
    app.on_key_event(plain('x')).unwrap();
    assert_eq!(app.current_pane_path, Vec::<bool>::new());
    assert_eq!(app.pane_tree.collect_leaf_paths(), vec![vec![true], vec![false]]);
    assert_eq!(app.on_key_event(plain('x')), Err(PathError::CannotRemoveBranch));
    app.current_pane_path = vec![false];
    app.on_key_event(plain('x')).unwrap();
    assert_eq!(app.current_pane_path, Vec::<bool>::new());
    assert!(matches!(app.pane_tree.inner(), BTreeNode::Leaf(PaneData { image_id: 1 })));
    app.on_key_event(plain('x')).unwrap();
    assert_eq!(app.current_pane_path, Vec::<bool>::new());
    assert!(matches!(app.pane_tree.inner(), BTreeNode::Leaf(PaneData { image_id: 0 })));
    app.on_key_event(held('q')).unwrap();
    assert!(!app.running);
}

#[test]
fn a_lost_focus_is_an_error_and_changes_nothing() {
    let mut app = app_with(1, 1);
    app.current_tab = Tab::Image;
    app.on_key_event(plain('b')).unwrap();
    app.current_pane_path = vec![];
    assert_eq!(app.on_key_event(plain('b')), Err(PathError::CannotSplitBranch));
    assert_eq!(app.on_key_event(plain('x')), Err(PathError::CannotRemoveBranch));
    assert_eq!(app.on_key_event(plain('l')), Err(PathError::PathNotFound));
    assert_eq!(app.on_key_event(plain('ä')), Err(PathError::CannotCycleImageOnBranch));
    assert_eq!(app.on_key_event(plain('d')), Ok(()));
    app.current_pane_path = vec![true, true, false];
    assert_eq!(app.on_key_event(plain('d')), Err(PathError::PathBeyondLeaf));
    assert_eq!(app.apply(Command::Split(SplitDirection::Horizontal)), Err(PathError::PathBeyondLeaf));
    assert_eq!(app.pane_tree.collect_leaf_paths(), vec![vec![true], vec![false]]);
    assert_eq!(app.current_pane_path, vec![true, true, false]);
}

#[test]
fn the_state_knows_where_the_images_are() {
    let mut app = app_with(2, 3);
    assert_eq!(app.get_basename(2), Some("2.png".to_string()));
    assert_eq!(app.get_basename(3), None);
    assert_eq!(app.get_imgdir_path(1), "dir1");
    assert_eq!(app.get_fullimgpath(0, 1), Some(("dir1".to_string(), "0.png".to_string())));
    assert_eq!(app.get_fullimgpath(7, 0), None);
    assert_eq!(app.get_total_imgpanes(), 1);
    app.split_imgpane(SplitDirection::Vertical).unwrap();
    app.split_imgpane(SplitDirection::Horizontal).unwrap();
    assert_eq!(app.get_total_imgpanes(), 3);
    assert_eq!(app.current_pane_path, vec![false, false]);
    app.next_img().unwrap();
    app.cycle_imagepane(AdjustDirection::Next).unwrap();
    assert_eq!(app.current_pane_path, vec![true]);
    app.cycle_imagepane(AdjustDirection::Previous).unwrap();
    assert_eq!(app.current_pane_path, vec![false, false]);
    app.resize_imgpane(-50, SplitDirection::Vertical).unwrap();
    app.resize_imgpane(3, SplitDirection::Horizontal).unwrap();
    let spec = app.pane_tree.get_spec();
    assert_eq!(spec.branch_data[0].pct, 5);
    assert_eq!(spec.branch_data[1].pct, 53);
    assert_eq!(spec.leaf_data[2], PaneData { image_id: 1 });
    assert_eq!(app.pane_tree.path_of_imgpane(1), Some(vec![false, true]));
    assert_eq!(app.pane_tree.path_of_imgpane(3), None);
    app.remove_imgpane().unwrap();
    assert_eq!(app.current_pane_path, vec![false]);
    assert_eq!(app.get_total_imgpanes(), 2);
    app.current_pane_path = vec![];
    assert_eq!(app.cycle_imagepane(AdjustDirection::Next), Err(PathError::PathNotFound));
    assert_eq!(app.remove_imgpane(), Err(PathError::CannotRemoveBranch));
}
