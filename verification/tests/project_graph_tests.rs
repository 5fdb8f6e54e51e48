use ast_engine::resolve_import_candidates;

#[test]
fn import_candidates_cover_extensions_and_indexes() {
    let c = resolve_import_candidates("src/app.ts", "../lib/util");
    assert_eq!(
        c,
        vec![
            "lib/util", "lib/util.ts", "lib/util.tsx", "lib/util.js", "lib/util.jsx", "lib/util/index.ts",
            "lib/util/index.tsx", "lib/util/index.js", "lib/util/index.jsx",
        ]
    );
    assert!(resolve_import_candidates("src/app.ts", "react").is_empty());
    assert_eq!(resolve_import_candidates("app.ts", "./x")[0], "x");
}

