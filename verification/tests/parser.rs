use std::collections::BTreeMap;

use wae::domain::{ImportKind, ModulePath, ParseErrorKind};
use wae::parser::{decode_string_literal, replace_all, JsTsParser, ParserAdapter, PARSER_CACHE_VERSION};

#[test]
fn extracts_supported_dependency_nodes_from_the_ast() {
    let source = r#"
import value from './static';
import type { T } from "./types";
export * from './reexport';
export { value as other } from "./named";
import data from "./data.json" assert { type: "json" };
import modern from "./modern.json" with { type: "json" };
const lazy = import('./lazy');
const legacy = require('./legacy');
const resolved = require.resolve('./resolved');
import legacyAlias = require('./legacy-alias');
// import nope from './comment';
"#;
    let imports = JsTsParser.parse_imports(&ModulePath("src/a.ts".into()), source).unwrap();
    assert_eq!(
        imports.iter().map(|i| i.specifier.as_str()).collect::<Vec<_>>(),
        vec![
            "./static",
            "./types",
            "./reexport",
            "./named",
            "./data.json",
            "./modern.json",
            "./lazy",
            "./legacy",
            "./resolved",
            "./legacy-alias",
        ]
    );
    assert_eq!(imports[1].kind, ImportKind::TypeOnly);
    assert_eq!(imports[2].kind, ImportKind::ReExport);
    assert!(imports[7..].iter().all(|import| import.kind == ImportKind::Require));
}

#[test]
fn extracts_directives_and_next_runtime_from_ast_semantics() {
    let parsed = JsTsParser
        .parse_module(
            &ModulePath("src/app/route.ts".into()),
            "/* header */\n'use server';\nexport const runtime = 'edge';\nconst later = 'use client';",
        )
        .unwrap();
    assert_eq!(parsed.semantics.directives, vec!["use server"]);
    assert_eq!(parsed.semantics.exported_runtime.as_deref(), Some("edge"));

    let nested = JsTsParser
        .parse_module(&ModulePath("src/not-runtime.ts".into()), "function f() { const runtime = 'nodejs'; }")
        .unwrap();
    assert_eq!(nested.semantics.exported_runtime, None);

    for source in [
        "namespace Internal { export const runtime = 'edge'; }",
        "if (enabled) { const runtime = 'edge'; }",
        "export { runtime } from './runtime-config';",
    ] {
        let parsed = JsTsParser.parse_module(&ModulePath("src/app/page.ts".into()), source).unwrap();
        assert_eq!(parsed.semantics.exported_runtime, None, "source: {source}");
    }
    let escaped = JsTsParser
        .parse_module(&ModulePath("src/app/route.ts".into()), r#"export const runtime = "e\u0064ge";"#)
        .unwrap();
    assert_eq!(escaped.semantics.exported_runtime.as_deref(), Some("edge"));
}

#[test]
fn classifies_type_only_import_and_export_forms_without_erasing_mixed_runtime_edges() {
    let source = r#"
export type { User } from "./export-type";
export { type Account } from "./export-inline-type";
export { type Role, runtimeValue } from "./export-mixed";
import { type Session } from "./import-inline-type";
import { type Token, runtimeClient } from "./import-mixed";
import defaultValue, { type Options } from "./import-default-mixed";
"#;
    let imports = JsTsParser.parse_imports(&ModulePath("src/a.ts".into()), source).unwrap();
    let kinds = imports
        .iter()
        .map(|import| (import.specifier.as_str(), import.kind.clone()))
        .collect::<BTreeMap<_, _>>();
    assert_eq!(kinds["./export-type"], ImportKind::TypeOnly);
    assert_eq!(kinds["./export-inline-type"], ImportKind::TypeOnly);
    assert_eq!(kinds["./export-mixed"], ImportKind::ReExport);
    assert_eq!(kinds["./import-inline-type"], ImportKind::TypeOnly);
    assert_eq!(kinds["./import-mixed"], ImportKind::Static);
    assert_eq!(kinds["./import-default-mixed"], ImportKind::Static);
}

#[test]
fn ignores_dependency_text_in_strings_templates_regex_and_member_calls() {
    let source = r#"
const text = "import value from './fake-string'";
const template = `require('./fake-template') ${value}`;
const regex = /import.*fake-regex/;
loader.require('./fake-member');
const expression = import(`./locale/${locale}`);
"#;
    let imports = JsTsParser.parse_imports(&ModulePath("src/a.ts".into()), source).unwrap();
    assert!(imports.is_empty());
}

#[test]
fn handles_multiline_tsx_and_literal_dynamic_imports() {
    let source = r#"
import {
  Button,
} from './button';
const view = <Button />;
const page = import(
  "./page"
);
"#;
    let imports = JsTsParser.parse_imports(&ModulePath("src/view.tsx".into()), source).unwrap();
    assert_eq!(imports.len(), 2);
    assert_eq!(imports[0].specifier, "./button");
    assert_eq!(imports[1].specifier, "./page");
}

#[test]
fn reports_malformed_typescript_from_the_syntax_tree() {
    let error = JsTsParser.parse_imports(&ModulePath("src/broken.ts".into()), "export const value = ;").unwrap_err();
    assert_eq!(error.kind, ParseErrorKind::MalformedSource);
    assert_eq!(error.location.unwrap().line, 1);
}

#[test]
fn reports_unicode_columns_in_characters_not_utf8_bytes() {
    let source = "const label = 'سلام'; const page = import('./page');";
    let imports = JsTsParser.parse_imports(&ModulePath("src/a.ts".into()), source).unwrap();
    let byte = source.find("./page").unwrap();
    assert_eq!(imports[0].location.column, source[..byte].chars().count() + 1);
}

#[test]
fn import_locations_point_just_inside_the_quote() {
    let source = "\n\nimport a from './a';\n";
    let imports = JsTsParser.parse_imports(&ModulePath("src/a.ts".into()), source).unwrap();
    assert_eq!(imports.len(), 1);
    assert_eq!(imports[0].location.line, 3);
    assert_eq!(imports[0].location.column, 16);
    assert_eq!(imports[0].module_id.0, "src/a.ts");
    assert_eq!(imports[0].location.file, "src/a.ts");
}

#[test]
fn string_literals_decode_their_escapes() {
    assert_eq!(decode_string_literal(r"'a\'b\\c\n'").as_deref(), Some("a'b\\c\n"));
    assert_eq!(decode_string_literal(r#""\u0041b""#).as_deref(), Some("Ab"));
    assert_eq!(decode_string_literal("'unterminated"), None);
    assert_eq!(decode_string_literal("plain"), None);
    assert_eq!(replace_all("a with { b } with {", " with {", " assert {"), "a assert { b } assert {");
    assert!(PARSER_CACHE_VERSION.ends_with(":js-ts-ast-v5"));
}
