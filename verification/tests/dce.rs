use rex_build::dce::{strip_server_exports, DceStmt, DceSymbol};

/// The span of the first occurrence of `text`.
fn sp(src: &str, text: &str) -> (u32, u32) {
    let start = src.find(text).unwrap();
    (start as u32, (start + text.len()) as u32)
}

/// The span of identifier `name` where it begins `context` (first occurrence).
fn ident(src: &str, context: &str, name: &str) -> (u32, u32) {
    let start = src.find(context).unwrap();
    (start as u32, (start + name.len()) as u32)
}

fn sym(decl: (u32, u32), refs: Vec<(u32, u32)>) -> DceSymbol {
    DceSymbol { decl_stmt: Some(decl), refs }
}

fn strip(src: &str, syms: &[DceSymbol], server: &[usize], stmts: &[DceStmt]) -> String {
    String::from_utf8(strip_server_exports(src.as_bytes(), syms, server, stmts)).unwrap()
}

const PAGE_NAME: &str = "export default function Page({ name }) {\n    return <div>{name}</div>;\n}";

#[test]
fn no_server_exports_unchanged() {
    let source = r#"
export default function Page({ data }) {
    return <div>{data}</div>;
}
"#;
    let page = sp(source, "export default function Page({ data }) {\n    return <div>{data}</div>;\n}");
    assert_eq!(strip(source, &[sym(page, vec![])], &[], &[DceStmt::Other]), source);
}

#[test]
fn strips_gssp_function() {
    let source = r#"export async function getServerSideProps(ctx) {
    return { props: { name: "world" } };
}

export default function Page({ name }) {
    return <div>{name}</div>;
}
"#;
    let gssp = sp(source, "export async function getServerSideProps(ctx) {\n    return { props: { name: \"world\" } };\n}");
    let page = sp(source, PAGE_NAME);
    let syms = vec![sym(gssp, vec![]), sym(page, vec![])];
    let result = strip(source, &syms, &[0], &[DceStmt::ExportFunc(gssp, Some(0)), DceStmt::Other]);
    assert!(!result.contains("getServerSideProps"));
    assert!(result.contains("export default function Page"));
}

#[test]
fn strips_gssp_const_arrow() {
    let source = r#"export const getServerSideProps = async (ctx) => {
    return { props: { name: "world" } };
};

export default function Page({ name }) {
    return <div>{name}</div>;
}
"#;
    let gssp = sp(source, "export const getServerSideProps = async (ctx) => {\n    return { props: { name: \"world\" } };\n};");
    let page = sp(source, PAGE_NAME);
    let syms = vec![sym(gssp, vec![]), sym(page, vec![])];
    let result = strip(source, &syms, &[0], &[DceStmt::ExportVar(gssp, vec![Some(0)]), DceStmt::Other]);
    assert!(!result.contains("getServerSideProps"));
    assert!(result.contains("export default function Page"));
}

#[test]
fn strips_gsp() {
    let source = r#"export async function getStaticProps() {
    return { props: { count: 42 } };
}

export default function Page({ count }) {
    return <div>{count}</div>;
}
"#;
    let gsp = sp(source, "export async function getStaticProps() {\n    return { props: { count: 42 } };\n}");
    let page = sp(source, "export default function Page({ count }) {\n    return <div>{count}</div>;\n}");
    let syms = vec![sym(gsp, vec![]), sym(page, vec![])];
    let result = strip(source, &syms, &[0], &[DceStmt::ExportFunc(gsp, Some(0)), DceStmt::Other]);
    assert!(!result.contains("getStaticProps"));
    assert!(result.contains("export default function Page"));
}

#[test]
fn strips_server_only_import() {
    let source = r#"import { fetchData } from './server-utils';

export async function getServerSideProps(ctx) {
    const data = fetchData(ctx.params.id);
    return { props: { data } };
}

export default function Page({ data }) {
    return <div>{data}</div>;
}
"#;
    let imp = sp(source, "import { fetchData } from './server-utils';");
    let gssp = sp(
        source,
        "export async function getServerSideProps(ctx) {\n    const data = fetchData(ctx.params.id);\n    return { props: { data } };\n}",
    );
    let syms = vec![sym(gssp, vec![]), sym(imp, vec![ident(source, "fetchData(ctx", "fetchData")])];
    let stmts = vec![DceStmt::Import(imp, vec![Some(1)], false), DceStmt::ExportFunc(gssp, Some(0)), DceStmt::Other];
    let result = strip(source, &syms, &[0], &stmts);
    assert!(!result.contains("getServerSideProps"));
    assert!(!result.contains("fetchData"));
    assert!(!result.contains("server-utils"));
    assert!(result.contains("export default function Page"));
}

#[test]
fn preserves_shared_import() {
    let source = r#"import { formatDate } from './utils';

export async function getServerSideProps(ctx) {
    const date = formatDate(new Date());
    return { props: { date } };
}

export default function Page({ date }) {
    return <div>{formatDate(date)}</div>;
}
"#;
    let imp = sp(source, "import { formatDate } from './utils';");
    let gssp = sp(
        source,
        "export async function getServerSideProps(ctx) {\n    const date = formatDate(new Date());\n    return { props: { date } };\n}",
    );
    let syms = vec![
        sym(gssp, vec![]),
        sym(imp, vec![ident(source, "formatDate(new", "formatDate"), ident(source, "formatDate(date)", "formatDate")]),
    ];
    let stmts = vec![DceStmt::Import(imp, vec![Some(1)], false), DceStmt::ExportFunc(gssp, Some(0)), DceStmt::Other];
    let result = strip(source, &syms, &[0], &stmts);
    assert!(!result.contains("getServerSideProps"));
    assert!(result.contains("formatDate"));
    assert!(result.contains("utils"));
}

#[test]
fn preserves_side_effect_imports() {
    let source = r#"import './styles.css';
import { db } from './database';

export async function getServerSideProps() {
    const data = db.query('SELECT *');
    return { props: { data } };
}

export default function Page({ data }) {
    return <div>{data}</div>;
}
"#;
    let side = sp(source, "import './styles.css';");
    let imp = sp(source, "import { db } from './database';");
    let gssp = sp(
        source,
        "export async function getServerSideProps() {\n    const data = db.query('SELECT *');\n    return { props: { data } };\n}",
    );
    let syms = vec![sym(gssp, vec![]), sym(imp, vec![ident(source, "db.query", "db")])];
    let stmts = vec![
        DceStmt::Import(side, vec![], false),
        DceStmt::Import(imp, vec![Some(1)], false),
        DceStmt::ExportFunc(gssp, Some(0)),
        DceStmt::Other,
    ];
    let result = strip(source, &syms, &[0], &stmts);
    assert!(!result.contains("getServerSideProps"));
    assert!(!result.contains("database"));
    assert!(result.contains("import './styles.css'"));
}

#[test]
fn no_server_exports_returns_same() {
    let source = r#"export default function Page() {
    return <div>Hello</div>;
}
"#;
    let page = sp(source, "export default function Page() {\n    return <div>Hello</div>;\n}");
    assert_eq!(strip(source, &[sym(page, vec![])], &[], &[DceStmt::Other]), source);
}

#[test]
fn preserves_partially_dead_import() {
    let source = r#"import { serverFn, sharedFn } from './utils';

export async function getServerSideProps() {
    const data = serverFn();
    return { props: { data } };
}

export default function Page({ data }) {
    return <div>{sharedFn(data)}</div>;
}
"#;
    let imp = sp(source, "import { serverFn, sharedFn } from './utils';");
    let gssp = sp(
        source,
        "export async function getServerSideProps() {\n    const data = serverFn();\n    return { props: { data } };\n}",
    );
    let syms = vec![
        sym(gssp, vec![]),
        sym(imp, vec![ident(source, "serverFn()", "serverFn")]),
        sym(imp, vec![ident(source, "sharedFn(data)", "sharedFn")]),
    ];
    let stmts = vec![DceStmt::Import(imp, vec![Some(1), Some(2)], false), DceStmt::ExportFunc(gssp, Some(0)), DceStmt::Other];
    let result = strip(source, &syms, &[0], &stmts);
    assert!(!result.contains("getServerSideProps"));
    assert!(result.contains("import { serverFn, sharedFn } from './utils'"));
    assert!(result.contains("sharedFn"));
}

#[test]
fn strips_server_only_top_level_function() {
    let source = r#"import { db } from './database';

function fetchPosts() {
    return db.query('SELECT * FROM posts');
}

export async function getServerSideProps() {
    const posts = fetchPosts();
    return { props: { posts } };
}

export default function Page({ posts }) {
    return <div>{posts.length}</div>;
}
"#;
    let imp = sp(source, "import { db } from './database';");
    let func = sp(source, "function fetchPosts() {\n    return db.query('SELECT * FROM posts');\n}");
    let gssp = sp(
        source,
        "export async function getServerSideProps() {\n    const posts = fetchPosts();\n    return { props: { posts } };\n}",
    );
    let syms = vec![
        sym(gssp, vec![]),
        sym(imp, vec![ident(source, "db.query", "db")]),
        sym(func, vec![ident(source, "fetchPosts();", "fetchPosts")]),
    ];
    let stmts = vec![
        DceStmt::Import(imp, vec![Some(1)], false),
        DceStmt::Func(func, Some(2)),
        DceStmt::ExportFunc(gssp, Some(0)),
        DceStmt::Other,
    ];
    let result = strip(source, &syms, &[0], &stmts);
    assert!(!result.contains("getServerSideProps"));
    assert!(!result.contains("fetchPosts"));
    assert!(!result.contains("database"));
    assert!(result.contains("export default function Page"));
}

#[test]
fn strips_fs_import_preserves_default_export() {
    let source = r#"
                import fs from 'fs';
                export default function Home({ content }) {
                    return <div><h1>{content}</h1></div>;
                }
                export function getServerSideProps() {
                    const content = fs.readFileSync('data/message.txt', 'utf8');
                    return { props: { content } };
                }
                "#;
    let imp = sp(source, "import fs from 'fs';");
    let home = sp(
        source,
        "export default function Home({ content }) {\n                    return <div><h1>{content}</h1></div>;\n                }",
    );
    let gssp = sp(
        source,
        "export function getServerSideProps() {\n                    const content = fs.readFileSync('data/message.txt', 'utf8');\n                    return { props: { content } };\n                }",
    );
    let syms = vec![sym(gssp, vec![]), sym(imp, vec![ident(source, "fs.readFileSync", "fs")]), sym(home, vec![])];
    let stmts = vec![DceStmt::Import(imp, vec![Some(1)], false), DceStmt::Other, DceStmt::ExportFunc(gssp, Some(0))];
    let result = strip(source, &syms, &[0], &stmts);
    assert!(!result.contains("getServerSideProps"));
    assert!(!result.contains("import fs from 'fs'"));
    assert!(result.contains("export default function Home"), "Default export should be preserved");
}
