use urlqstring::QueryParams;

fn test_stringify() {
    let enc1 = QueryParams::from_vec(vec![
        ("params", "www. baidu. com/百度搜索"),
        ("encSecKey", "查询字=-)(*&^%$#@!~符串+~·！@￥%……%^%$:\"'*','-','.' and '_'"),
    ])
    .stringify();
    let res1: String = String::from("params=www.%20baidu.%20com%2F%E7%99%BE%E5%BA%A6%E6%90%9C%E7%B4%A2&encSecKey=%E6%9F%A5%E8%AF%A2%E5%AD%97%3D-)(*%26%5E%25%24%23%40!~%E7%AC%A6%E4%B8%B2%2B~%C2%B7%EF%BC%81%40%EF%BF%A5%25%E2%80%A6%E2%80%A6%25%5E%25%24%3A%22'*'%2C'-'%2C'.'%20and%20'_'&");
    assert_eq!(enc1, res1);

    let e = QueryParams::from_vec(vec![("params", "度"), ("enc", "=-)(&#+~·@…%^$:*-_.")]).stringify();
    println!("s={}", e);
}

fn test_parse() {
    let query_str = "params=www. baidu. com/百度搜索&encSecKey=查询字-=)(*^%$#@!~符串+~·！@￥%……%^%$:\"'*','-','.' and '_'&love=lu";
    let q = QueryParams::from_str(query_str);
    let res1 = q.value("params").unwrap();
    let res2 = q.value("encSecKey").unwrap();
    let res3 = q.value("love").unwrap();

    assert_eq!(res1, String::from("www. baidu. com/百度搜索"));
    assert_eq!(res2, String::from("查询字-=)(*^%$#@!~符串+~·！@￥%……%^%$:\"'*','-','.' and '_'"));
    assert_eq!(res3, String::from("lu"));
}

fn test_json() {
    let query_str1 = "idx=1024&name=lumi&family=ti=an&love";
    let res1 = QueryParams::from_str(query_str1).json();

    let query_str2 = "encSecKey=查询字=-)(*&^%$#@!~符串+~·！@￥%……%^%$:\"'*','-','.' and '_'";
    let res2 = QueryParams::from_str(query_str2).json();

    assert_eq!(res1, r#"{"idx":"1024","name":"lumi","family":"ti=an","love":""}"#);

    assert_eq!(res2, r#"{"encSecKey":"查询字=-)(*","^%$#@!~符串+~·！@￥%……%^%$:"'*','-','.' and '_'":""}"#);
}

fn test_query_get_traits() {
    let query_params = QueryParams::from_str("idx=1024&name=lumin&family=ti=an&love&ti=liang");
    let name = query_params.value("name").unwrap();
    let idx = query_params.value("idx").unwrap();
    let family = query_params.value("family").unwrap();
    let love = query_params.value("love").unwrap();
    let no = query_params.value("error").unwrap_or("error");

    assert_eq!(idx, "1024");
    assert_eq!(name, "lumin");
    assert_eq!(family, "ti=an");
    assert_eq!(love, "");
    assert_eq!(no, "error");

    let query2 = query_params.replace_key("ti", "tian").stringify();
    let query3 = query_params.replace_key("love", "ai").stringify();

    assert_eq!(query2, String::from("idx=1024&name=lumin&family=ti%3Dan&love&tian=liang&"));
    assert_eq!(query3, String::from("idx=1024&name=lumin&family=ti%3Dan&ai&ti=liang&"));
}

fn test_object_macros() {
    let value = QueryParams::from_vec(vec![
        ("params", "www. baidu. com/百度搜索"),
        ("encSecKey", "查询字=-)(*&^%$#@!~符串+~·！@￥%……%^%$:'*','-','.' and '_'"),
    ])
    .stringify();

    let res1: String = String::from("params=www.%20baidu.%20com%2F%E7%99%BE%E5%BA%A6%E6%90%9C%E7%B4%A2&encSecKey=%E6%9F%A5%E8%AF%A2%E5%AD%97%3D-)(*%26%5E%25%24%23%40!~%E7%AC%A6%E4%B8%B2%2B~%C2%B7%EF%BC%81%40%EF%BF%A5%25%E2%80%A6%E2%80%A6%25%5E%25%24%3A'*'%2C'-'%2C'.'%20and%20'_'&");
    assert_eq!(value, res1);
}

#[test]
fn lib_it_works() {
    test_stringify();
    test_parse();
    test_json();
    test_query_get_traits();
    test_object_macros();
}

#[test]
fn test() {
    let val = QueryParams::from_vec(vec![
        ("rust", "true"),
        ("lumin", "[1, 2, 3, 123]"),
        ("test_string", "hello"),
        ("test_vec", "vec![\"hello\", \"world\", \"and\", \"rust\"]"),
    ]);

    println!("value={:?}", val);
    assert_eq!(val.value("rust"), Some("true"));
    assert_eq!(val.value("test_string"), Some("hello"));
}

#[test]
fn querystring_it_works() {
    let res1 = QueryParams::from_vec(vec![("id", "1024"), ("idx", "1,3,5")])
        .replace_key("idx", "ids")
        .json();
    assert_eq!(res1, r#"{"id":"1024","ids":"1,3,5"}"#);

    let res2 = QueryParams::from_vec(vec![("id", "1024"), ("name", "rust")]).stringify();
    assert_eq!(res2, "id=1024&name=rust&");

    let res = QueryParams::from_vec(vec![("id", "1024"), ("name", "rust")])
        .replace_value("rust", "rust-lang");
    let mut iterator = res.iter();
    assert_eq!(iterator.next(), Some(&(String::from("id"), String::from("1024"))));
    assert_eq!(iterator.next(), Some(&(String::from("name"), String::from("rust-lang"))));
    assert_eq!(iterator.next(), None);
}
