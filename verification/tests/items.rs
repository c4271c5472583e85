use rope::cells::{MtLock, MtSticky};
use rope::theming::{NewSheetSetCtx, Prop, SheetSet, StyleRule, Stylesheet};
use rope::theming::{FG_COLOR, LAYER_ALL, LAYER_IMG, LAYOUT};
use rope::wmapi::{ActionBinding, WndSnapshot};

#[test]
fn cells_round_trip() {
    let st = MtSticky::new(41i32);
    assert_eq!(*st.get(), 41);
    assert_eq!(st.into_inner(), 41);

    let lk = MtLock::new("x".to_string());
    assert_eq!(lk.get(), "x");
    assert_eq!(lk.into_inner(), "x");
}

#[test]
fn wnd_snapshot_empty() {
    let snap = WndSnapshot::new();
    assert_eq!(snap.size, [0, 0]);
    assert!(snap.data.is_empty());
    assert_eq!(snap.stride, 0);

    let snap2 = WndSnapshot::default();
    assert_eq!(snap2.size, [0, 0]);

    let binding = ActionBinding { source: "global", pattern: "Ctrl+Q", action: 3 };
    assert_eq!(binding.pattern, "Ctrl+Q");
    assert_eq!(binding.action, 3);
}

#[test]
fn prop_kind_flags() {
    assert_eq!(Prop::NumLayers.kind_flags().bits, LAYER_ALL);
    assert_eq!(Prop::LayerImg(2).kind_flags().bits, LAYER_IMG);
    assert_eq!(Prop::MinSize.kind_flags().bits, LAYOUT);
    assert_eq!(Prop::FgColor.kind_flags().bits, FG_COLOR);
    assert!(Prop::LayerImg(0).kind_flags().intersects(Prop::NumLayers.kind_flags()));
    assert!(!Prop::FgColor.kind_flags().intersects(Prop::MinSize.kind_flags()));
}

#[test]
fn sheet_set_insertion() {
    let set = SheetSet::new();
    assert_eq!(set.len(), 0);
    let mut ctx = NewSheetSetCtx::new(set);
    let sheet = Stylesheet { rules: vec![StyleRule { priority: 1, prop_kinds: LAYOUT }] };
    ctx.insert_stylesheet(sheet);
    ctx.insert_stylesheet(Stylesheet { rules: Vec::new() });
    let set = ctx.into_sheet_set();
    assert_eq!(set.len(), 2);
}
